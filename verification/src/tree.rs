//! The workspace tree as a value: nodes, parent links, focus, floating groups and caches.
//!
//! Everything the arena does is stated over this value. The parent links alone decide what is
//! above what, so the walks along them take only the links.

use crate::axis::NodeKey;
use crate::cache::Caches;
use crate::measure::{Point, Rect, Size};
use crate::node::{inserted, Node};
use crate::seat::{
    lemma_fronted, lemma_push_contains, lemma_raised, lemma_within, raised, without, Seat,
};
use vstd::prelude::*;

verus! {

/// How a floating group came to be.
#[derive(Debug, Clone, Copy, PartialEq, Eq, Structural)]
pub enum FloatingRootKind {
    /// One window, floated by itself.
    ImplicitWindowGroup,
    /// A container that was floated.
    FloatedContainer,
    /// The container built around everything when the workspace itself was floated.
    WorkspaceWrapper,
}

/// Where a floating group is: relative to its working area, and the boxes that follow from it.
#[derive(Debug, Clone, Copy, PartialEq, Eq, Structural)]
pub struct FloatingGeometry {
    pub pos: Point,
    pub working_area: Rect,
    pub target: Rect,
    pub resize_base_size: Size,
}

/// One entry of the floating stack.
#[derive(Debug, Clone, Copy, PartialEq, Eq, Structural)]
pub struct FloatingRoot {
    pub id: u64,
    pub key: NodeKey,
    pub kind: FloatingRootKind,
    pub geometry: FloatingGeometry,
}

/// The settings and the surroundings the tree reads.
#[derive(Debug, Clone, Copy, PartialEq, Eq, Structural)]
pub struct ArenaOptions {
    pub autotile: bool,
    pub animations_off: bool,
    pub view_size: Size,
    pub working_area: Rect,
}

pub struct Tree {
    pub nodes: Map<NodeKey, Node>,
    /// The parent of each node that has one. A floating group has the workspace as parent
    /// without being listed among its children.
    pub parents: Map<NodeKey, NodeKey>,
    pub root: NodeKey,
    pub seat: Seat,
    pub fullscreen: Option<NodeKey>,
    /// The floating groups, topmost first.
    pub floating: Seq<FloatingRoot>,
    pub next_floating_id: u64,
    pub next_key: u64,
    pub caches: Caches,
    pub options: ArenaOptions,
}

// ---------------------------------------------------------------------------------------------
// Walks along parent links
// ---------------------------------------------------------------------------------------------

/// Ranks below `bound` that grow on the way down.
pub open spec fn ranked(
    parents: Map<NodeKey, NodeKey>,
    rank: spec_fn(NodeKey) -> nat,
    bound: nat,
) -> bool {
    forall|k: NodeKey| #[trigger]
        parents.contains_key(k) ==> rank(parents[k]) < rank(k) && rank(k) <= bound
}

/// No node is above itself.
pub open spec fn acyclic(parents: Map<NodeKey, NodeKey>) -> bool {
    exists|rank: spec_fn(NodeKey) -> nat, bound: nat| ranked(parents, rank, bound)
}

pub closed spec fn ranks(parents: Map<NodeKey, NodeKey>) -> (spec_fn(NodeKey) -> nat, nat) {
    choose|rank: spec_fn(NodeKey) -> nat, bound: nat| ranked(parents, rank, bound)
}

/// A number that shrinks on the way up.
pub open spec fn depth(parents: Map<NodeKey, NodeKey>, k: NodeKey) -> nat {
    (ranks(parents).0)(k)
}

/// A number that shrinks on the way down.
pub open spec fn room(parents: Map<NodeKey, NodeKey>, k: NodeKey) -> nat {
    let (rank, bound) = ranks(parents);
    if rank(k) <= bound {
        (bound - rank(k)) as nat
    } else {
        0
    }
}

pub broadcast proof fn lemma_depth(parents: Map<NodeKey, NodeKey>, k: NodeKey)
    requires
        acyclic(parents),
        #[trigger] parents.contains_key(k),
    ensures
        depth(parents, parents[k]) < depth(parents, k),
        room(parents, k) < room(parents, parents[k]),
{
    let (rank, bound) = ranks(parents);
    assert(ranked(parents, rank, bound));
    assert(parents.contains_key(k));
}

/// The chosen ranks are ranks.
pub proof fn lemma_ranks_fit(parents: Map<NodeKey, NodeKey>)
    requires
        acyclic(parents),
    ensures
        ranked(parents, ranks(parents).0, ranks(parents).1),
{
}

/// Whether `k` is `top` or sits somewhere below it.
pub open spec fn under(parents: Map<NodeKey, NodeKey>, k: NodeKey, top: NodeKey) -> bool
    decreases depth(parents, k),
    when acyclic(parents)
{
    proof {
        if parents.contains_key(k) {
            lemma_depth(parents, k);
        }
    }
    k == top || (parents.contains_key(k) && under(parents, parents[k], top))
}

/// A node and its ancestors, the node first.
pub open spec fn lineage(parents: Map<NodeKey, NodeKey>, k: NodeKey) -> Seq<NodeKey>
    decreases depth(parents, k),
    when acyclic(parents)
{
    proof {
        if parents.contains_key(k) {
            lemma_depth(parents, k);
        }
    }
    if parents.contains_key(k) {
        seq![k] + lineage(parents, parents[k])
    } else {
        seq![k]
    }
}

/// Everything at or below `top` is at least as deep.
pub proof fn lemma_under_depth(parents: Map<NodeKey, NodeKey>, k: NodeKey, top: NodeKey)
    requires
        acyclic(parents),
        under(parents, k, top),
    ensures
        depth(parents, top) <= depth(parents, k),
        k != top ==> depth(parents, top) < depth(parents, k),
    decreases depth(parents, k),
{
    if k != top {
        lemma_depth(parents, k);
        lemma_under_depth(parents, parents[k], top);
    }
}

/// A node is not below any of its children.
pub proof fn lemma_parent_not_under_child(parents: Map<NodeKey, NodeKey>, child: NodeKey)
    requires
        acyclic(parents),
        parents.contains_key(child),
    ensures
        !under(parents, parents[child], child),
{
    if under(parents, parents[child], child) {
        lemma_under_depth(parents, parents[child], child);
        lemma_depth(parents, child);
    }
}

pub proof fn lemma_under_trans(
    parents: Map<NodeKey, NodeKey>,
    a: NodeKey,
    b: NodeKey,
    c: NodeKey,
)
    requires
        acyclic(parents),
        under(parents, a, b),
        under(parents, b, c),
    ensures
        under(parents, a, c),
    decreases depth(parents, a),
{
    if a != b {
        lemma_depth(parents, a);
        lemma_under_trans(parents, parents[a], b, c);
    }
}

/// Of two nodes above a third, one is above the other.
pub proof fn lemma_under_chain(
    parents: Map<NodeKey, NodeKey>,
    k: NodeKey,
    a: NodeKey,
    b: NodeKey,
)
    requires
        acyclic(parents),
        under(parents, k, a),
        under(parents, k, b),
    ensures
        under(parents, a, b) || under(parents, b, a),
    decreases depth(parents, k),
{
    if k != a && k != b {
        lemma_depth(parents, k);
        lemma_under_chain(parents, parents[k], a, b);
    }
}

/// A node that is no parent has nothing below it but itself.
pub proof fn lemma_childless(parents: Map<NodeKey, NodeKey>, k: NodeKey, top: NodeKey)
    requires
        acyclic(parents),
        forall|c: NodeKey| #[trigger] parents.contains_key(c) ==> parents[c] != top,
        under(parents, k, top),
    ensures
        k == top,
    decreases depth(parents, k),
{
    if k != top {
        lemma_depth(parents, k);
        lemma_childless(parents, parents[k], top);
    }
}

/// The ancestry of a node lists each node once, all of them live.
pub proof fn lemma_lineage(parents: Map<NodeKey, NodeKey>, k: NodeKey)
    requires
        acyclic(parents),
    ensures
        lineage(parents, k).no_duplicates(),
        lineage(parents, k).len() > 0,
        lineage(parents, k)[0] == k,
        forall|a: NodeKey| #[trigger] lineage(parents, k).contains(a) <==> under(parents, k, a),
    decreases depth(parents, k),
{
    let all = lineage(parents, k);
    if parents.contains_key(k) {
        lemma_depth(parents, k);
        let rest = lineage(parents, parents[k]);
        lemma_lineage(parents, parents[k]);
        crate::seat::lemma_front_contains(k, rest);
        lemma_parent_not_under_child(parents, k);
        assert(!rest.contains(k));
        assert forall|i: int, j: int|
            0 <= i < all.len() && 0 <= j < all.len() && i != j implies all[i] != all[j] by {
            if i > 0 {
                assert(rest.contains(rest[i - 1]));
            }
            if j > 0 {
                assert(rest.contains(rest[j - 1]));
            }
        }
    } else {
        assert(all =~= seq![k]);
        assert forall|a: NodeKey| #[trigger] all.contains(a) <==> under(parents, k, a) by {
            assert(all[0] == k);
        }
    }
}

// ---------------------------------------------------------------------------------------------
// Reading the tree
// ---------------------------------------------------------------------------------------------

impl Tree {
    pub open spec fn has(self, k: NodeKey) -> bool {
        self.nodes.contains_key(k)
    }

    pub open spec fn parent(self, k: NodeKey) -> Option<NodeKey> {
        if self.parents.contains_key(k) {
            Some(self.parents[k])
        } else {
            None
        }
    }

    pub open spec fn is_view(self, k: NodeKey) -> bool {
        self.has(k) && self.nodes[k].is_view()
    }

    /// Whether `k` lays out children: the workspace or a split.
    pub open spec fn is_parent(self, k: NodeKey) -> bool {
        self.has(k) && self.nodes[k].is_parent()
    }

    pub open spec fn is_split(self, k: NodeKey) -> bool {
        self.has(k) && self.nodes[k].is_split()
    }

    /// Whether `k` is a container of either sort, not the workspace.
    pub open spec fn is_container(self, k: NodeKey) -> bool {
        self.has(k) && !self.nodes[k].workspace
    }

    /// The children of a node that lays out children.
    pub open spec fn kids(self, k: NodeKey) -> Seq<NodeKey> {
        if self.is_parent(k) {
            self.nodes[k].children
        } else {
            Seq::empty()
        }
    }

    /// Whether `k` is the root of a floating group.
    pub open spec fn is_floating(self, k: NodeKey) -> bool {
        exists|i: int| 0 <= i < self.floating.len() && #[trigger] self.floating[i].key == k
    }

    pub open spec fn under(self, k: NodeKey, top: NodeKey) -> bool {
        under(self.parents, k, top)
    }

    // -----------------------------------------------------------------------------------------
    // Well-formedness
    // -----------------------------------------------------------------------------------------

    /// Child lists and parent links agree.
    pub open spec fn linked(self) -> bool {
        &&& forall|p: NodeKey, i: int|
            #![trigger self.nodes[p].children[i]]
            self.has(p) && 0 <= i < self.nodes[p].children.len() ==> self.parents.contains_key(
                self.nodes[p].children[i],
            ) && self.parents[self.nodes[p].children[i]] == p
        &&& forall|p: NodeKey|
            #![trigger self.nodes[p].children]
            self.has(p) ==> self.nodes[p].children.no_duplicates()
        &&& forall|c: NodeKey| #[trigger]
            self.parents.contains_key(c) ==> self.has(c) && self.has(self.parents[c]) && (
            self.nodes[self.parents[c]].children.contains(c) || (self.is_floating(c)
                && self.parents[c] == self.root))
        &&& acyclic(self.parents)
    }

    /// The workspace is the one workspace node and has no parent; views hold no children.
    pub open spec fn rooted(self) -> bool {
        &&& self.has(self.root)
        &&& self.nodes[self.root].workspace
        &&& self.nodes[self.root].tile is None
        &&& !self.parents.contains_key(self.root)
        &&& forall|k: NodeKey| #[trigger]
            self.nodes.contains_key(k) && self.nodes[k].workspace ==> k == self.root
        &&& forall|k: NodeKey| #[trigger]
            self.nodes.contains_key(k) && self.nodes[k].tile is Some
                ==> self.nodes[k].children.len() == 0
    }

    /// Each floating group is listed once, hangs off the workspace and is not tiled in it.
    pub open spec fn floats(self) -> bool {
        &&& forall|i: int|
            0 <= i < self.floating.len() ==> self.parents.contains_key(
                (#[trigger] self.floating[i]).key,
            ) && self.parents[self.floating[i].key] == self.root
                && !self.nodes[self.root].children.contains(self.floating[i].key)
        &&& forall|i: int, j: int|
            0 <= i < self.floating.len() && 0 <= j < self.floating.len() && i != j ==> (
            #[trigger] self.floating[i]).key != (#[trigger] self.floating[j]).key
    }

    /// The focus order lists exactly the live nodes, each once.
    pub open spec fn seated(self) -> bool {
        &&& self.seat.order.no_duplicates()
        &&& forall|k: NodeKey| #[trigger] self.seat.order.contains(k) <==> self.has(k)
    }

    /// Every identity in use was handed out before the next one.
    pub open spec fn numbered(self) -> bool {
        forall|k: NodeKey| #[trigger] self.nodes.contains_key(k) ==> k.id < self.next_key
    }

    pub open spec fn wf(self) -> bool {
        &&& self.linked()
        &&& self.rooted()
        &&& self.floats()
        &&& self.seated()
        &&& self.numbered()
    }

    // -----------------------------------------------------------------------------------------
    // Elementary changes
    // -----------------------------------------------------------------------------------------

    pub open spec fn with_seat(self, seat: Seat) -> Tree {
        Tree { seat, ..self }
    }

    pub open spec fn with_caches(self, caches: Caches) -> Tree {
        Tree { caches, ..self }
    }

    pub open spec fn with_fullscreen(self, fullscreen: Option<NodeKey>) -> Tree {
        Tree { fullscreen, ..self }
    }

    pub open spec fn with_floating(self, floating: Seq<FloatingRoot>) -> Tree {
        Tree { floating, ..self }
    }

    /// The tree with the data of one node replaced.
    pub open spec fn with_node(self, k: NodeKey, node: Node) -> Tree {
        Tree { nodes: self.nodes.insert(k, node), ..self }
    }

    pub open spec fn with_children(self, k: NodeKey, children: Seq<NodeKey>) -> Tree {
        self.with_node(k, self.nodes[k].with_children(children))
    }

    /// The tree with a node added that nothing is linked to yet.
    pub open spec fn added(self, k: NodeKey, node: Node) -> Tree {
        Tree {
            nodes: self.nodes.insert(k, node),
            seat: self.seat.register(k),
            next_key: if self.next_key > k.id {
                self.next_key
            } else {
                (k.id + 1) as u64
            },
            ..self
        }
    }

    /// The tree without one node, and without anything naming it.
    pub open spec fn dropped(self, k: NodeKey) -> Tree {
        Tree {
            nodes: self.nodes.remove(k),
            parents: self.parents.remove(k),
            seat: self.seat.unregister(k),
            fullscreen: if self.fullscreen == Some(k) {
                None
            } else {
                self.fullscreen
            },
            ..self
        }
    }

    /// The tree with a tiled node taken out of its parent's child list.
    pub open spec fn unlinked(self, c: NodeKey) -> Tree {
        let p = self.parents[c];
        Tree {
            parents: self.parents.remove(c),
            ..self.with_children(p, without(self.nodes[p].children, c))
        }
    }

    /// The tree with a loose node put into a child list, at the end when `idx` is past it.
    pub open spec fn linked_at(self, c: NodeKey, p: NodeKey, idx: int) -> Tree {
        Tree {
            parents: self.parents.insert(c, p),
            ..self.with_children(p, inserted(self.nodes[p].children, idx, c))
        }
    }

    /// The tree with a loose node put on the floating stack.
    pub open spec fn floated(self, entry: FloatingRoot, idx: int) -> Tree {
        Tree {
            floating: self.floating.insert(idx, entry),
            parents: self.parents.insert(entry.key, self.root),
            ..self
        }
    }

    /// The tree with the `i`-th group taken off the floating stack.
    pub open spec fn unfloated(self, i: int) -> Tree {
        Tree {
            floating: self.floating.remove(i),
            parents: self.parents.remove(self.floating[i].key),
            ..self
        }
    }
}

// ---------------------------------------------------------------------------------------------
// Elementary changes keep the tree well-formed
// ---------------------------------------------------------------------------------------------

/// Links lost never close a circle.
pub proof fn lemma_acyclic_remove(parents: Map<NodeKey, NodeKey>, c: NodeKey)
    requires
        acyclic(parents),
    ensures
        acyclic(parents.remove(c)),
{
    let (rank, bound) = ranks(parents);
    assert(ranked(parents, rank, bound));
    assert(ranked(parents.remove(c), rank, bound));
}

/// Linking a loose node under a node outside its own subtree closes no circle.
pub proof fn lemma_acyclic_insert(parents: Map<NodeKey, NodeKey>, c: NodeKey, p: NodeKey)
    requires
        acyclic(parents),
        !parents.contains_key(c),
        !under(parents, p, c),
    ensures
        acyclic(parents.insert(c, p)),
{
    let (rank, bound) = ranks(parents);
    assert(ranked(parents, rank, bound));
    let shift = rank(p) + 1;
    let moved = |k: NodeKey|
        if under(parents, k, c) {
            rank(k) + shift
        } else {
            rank(k)
        };
    let next = parents.insert(c, p);
    let top = bound + rank(c) + shift;
    assert forall|k: NodeKey| #[trigger] next.contains_key(k) implies moved(next[k]) < moved(k)
        && moved(k) <= top by {
        if k == c {
            assert(under(parents, c, c));
        } else {
            assert(parents.contains_key(k));
            assert(under(parents, k, c) == under(parents, parents[k], c));
        }
    }
    assert(ranked(next, moved, top));
}

/// Replacing a node's data keeps the tree well-formed as long as its children, its kind and
/// whether it is a view stay.
pub proof fn lemma_with_node(t: Tree, k: NodeKey, node: Node)
    requires
        t.wf(),
        t.has(k),
        node.children == t.nodes[k].children,
        node.workspace == t.nodes[k].workspace,
        node.tile is Some <==> t.nodes[k].tile is Some,
    ensures
        t.with_node(k, node).wf(),
{
    let u = t.with_node(k, node);
    assert forall|p: NodeKey| u.has(p) implies t.has(p) && #[trigger] u.nodes[p].children
        == t.nodes[p].children by {}
    assert(u.linked()) by {
        assert forall|p: NodeKey, i: int|
            #![trigger u.nodes[p].children[i]]
            u.has(p) && 0 <= i < u.nodes[p].children.len() implies u.parents.contains_key(
            u.nodes[p].children[i],
        ) && u.parents[u.nodes[p].children[i]] == p by {
            assert(u.nodes[p].children == t.nodes[p].children);
            assert(t.parents.contains_key(t.nodes[p].children[i]));
        }
        assert forall|c: NodeKey| #[trigger] u.parents.contains_key(c) implies u.has(c) && u.has(
            u.parents[c],
        ) && (u.nodes[u.parents[c]].children.contains(c) || (u.is_floating(c) && u.parents[c]
            == u.root)) by {
            assert(t.parents.contains_key(c));
            assert(u.nodes[u.parents[c]].children == t.nodes[t.parents[c]].children);
            if t.is_floating(c) {
                assert(u.is_floating(c));
            }
        }
    }
    assert(u.nodes[u.root].children == t.nodes[t.root].children);
    assert(u.floats()) by {
        assert forall|i: int| 0 <= i < u.floating.len() implies u.parents.contains_key(
            (#[trigger] u.floating[i]).key,
        ) && u.parents[u.floating[i].key] == u.root && !u.nodes[u.root].children.contains(
            u.floating[i].key,
        ) by {
            assert(t.floating[i] == u.floating[i]);
        }
    }
    assert(u.rooted());
    assert(u.seated()) by {
        assert forall|x: NodeKey| #[trigger] u.seat.order.contains(x) <==> u.has(x) by {
            assert(t.seat.order.contains(x) <==> t.has(x));
        }
    }
    assert(u.numbered());
}

/// Adding a fresh childless node keeps the tree well-formed.
pub proof fn lemma_added(t: Tree, k: NodeKey, node: Node)
    requires
        t.wf(),
        !t.has(k),
        k.id < u64::MAX,
        node.children.len() == 0,
        !node.workspace,
    ensures
        t.added(k, node).wf(),
        !t.parents.contains_key(k),
        forall|c: NodeKey| #[trigger] t.parents.contains_key(c) ==> t.parents[c] != k,
        !t.is_floating(k),
{
    let u = t.added(k, node);
    assert(!t.parents.contains_key(k));
    assert forall|c: NodeKey| #[trigger] t.parents.contains_key(c) implies t.parents[c] != k by {
        assert(t.has(t.parents[c]));
    }
    assert(!t.is_floating(k)) by {
        if t.is_floating(k) {
            let i = choose|i: int| 0 <= i < t.floating.len() && #[trigger] t.floating[i].key == k;
            assert(t.parents.contains_key(t.floating[i].key));
        }
    }
    assert(!t.seat.order.contains(k));
    lemma_push_contains(t.seat.order, k);
    assert(u.linked()) by {
        assert forall|p: NodeKey, i: int|
            #![trigger u.nodes[p].children[i]]
            u.has(p) && 0 <= i < u.nodes[p].children.len() implies u.parents.contains_key(
            u.nodes[p].children[i],
        ) && u.parents[u.nodes[p].children[i]] == p by {
            if p != k {
                assert(t.parents.contains_key(t.nodes[p].children[i]));
            }
        }
        assert forall|c: NodeKey| #[trigger] u.parents.contains_key(c) implies u.has(c) && u.has(
            u.parents[c],
        ) && (u.nodes[u.parents[c]].children.contains(c) || (u.is_floating(c) && u.parents[c]
            == u.root)) by {
            assert(t.parents.contains_key(c));
            if t.is_floating(c) {
                assert(u.is_floating(c));
            }
        }
        assert forall|p: NodeKey|
            #![trigger u.nodes[p].children]
            u.has(p) implies u.nodes[p].children.no_duplicates() by {
            if p != k {
                assert(t.nodes[p].children.no_duplicates());
            }
        }
    }
    assert(u.floats()) by {
        assert forall|i: int| 0 <= i < u.floating.len() implies u.parents.contains_key(
            (#[trigger] u.floating[i]).key,
        ) && u.parents[u.floating[i].key] == u.root && !u.nodes[u.root].children.contains(
            u.floating[i].key,
        ) by {
            assert(t.floating[i] == u.floating[i]);
        }
    }
    assert(u.seated()) by {
        let o = t.seat.order;
        assert forall|i: int, j: int|
            0 <= i < o.push(k).len() && 0 <= j < o.push(k).len() && i != j implies o.push(k)[i]
            != o.push(k)[j] by {
            if i == o.len() {
                assert(o.contains(o[j]));
            }
            if j == o.len() {
                assert(o.contains(o[i]));
            }
        }
        assert forall|x: NodeKey| #[trigger] u.seat.order.contains(x) <==> u.has(x) by {
            assert(t.seat.order.contains(x) <==> t.has(x));
        }
    }
}

/// Dropping a loose childless node keeps the tree well-formed.
pub proof fn lemma_dropped(t: Tree, k: NodeKey)
    requires
        t.wf(),
        t.has(k),
        k != t.root,
        !t.parents.contains_key(k),
        t.nodes[k].children.len() == 0,
    ensures
        t.dropped(k).wf(),
        t.dropped(k).parents == t.parents,
{
    let u = t.dropped(k);
    assert(t.parents.remove(k) =~= t.parents);
    lemma_within(t.seat.order, Set::full().remove(k));
    assert forall|c: NodeKey| #[trigger] t.parents.contains_key(c) implies t.parents[c] != k by {
        if t.parents[c] == k {
            assert(!t.nodes[k].children.contains(c));
        }
    }
    assert(u.linked()) by {
        assert forall|p: NodeKey, i: int|
            #![trigger u.nodes[p].children[i]]
            u.has(p) && 0 <= i < u.nodes[p].children.len() implies u.parents.contains_key(
            u.nodes[p].children[i],
        ) && u.parents[u.nodes[p].children[i]] == p by {
            assert(t.parents.contains_key(t.nodes[p].children[i]));
        }
        assert forall|c: NodeKey| #[trigger] u.parents.contains_key(c) implies u.has(c) && u.has(
            u.parents[c],
        ) && (u.nodes[u.parents[c]].children.contains(c) || (u.is_floating(c) && u.parents[c]
            == u.root)) by {
            assert(t.parents.contains_key(c));
            if t.is_floating(c) {
                assert(u.is_floating(c));
            }
        }
        assert forall|p: NodeKey|
            #![trigger u.nodes[p].children]
            u.has(p) implies u.nodes[p].children.no_duplicates() by {
            assert(t.nodes[p].children.no_duplicates());
        }
    }
    assert(u.floats()) by {
        assert forall|i: int| 0 <= i < u.floating.len() implies u.parents.contains_key(
            (#[trigger] u.floating[i]).key,
        ) && u.parents[u.floating[i].key] == u.root && !u.nodes[u.root].children.contains(
            u.floating[i].key,
        ) by {
            assert(t.floating[i] == u.floating[i]);
        }
    }
    assert(u.seated()) by {
        assert forall|x: NodeKey| #[trigger] u.seat.order.contains(x) <==> u.has(x) by {
            assert(t.seat.order.contains(x) <==> t.has(x));
        }
    }
}

/// Taking a tiled node out of its parent's list keeps the tree well-formed.
pub proof fn lemma_unlinked(t: Tree, c: NodeKey)
    requires
        t.wf(),
        t.parents.contains_key(c),
        !t.is_floating(c),
    ensures
        t.unlinked(c).wf(),
        t.nodes[t.parents[c]].children.contains(c),
        t.nodes[t.parents[c]].tile is None,
        without(t.nodes[t.parents[c]].children, c) == t.nodes[t.parents[c]].children.remove(
            t.nodes[t.parents[c]].children.index_of(c),
        ),
{
    let u = t.unlinked(c);
    let p = t.parents[c];
    let kids = t.nodes[p].children;
    lemma_within(kids, Set::full().remove(c));
    lemma_acyclic_remove(t.parents, c);
    lemma_without_is_remove(kids, c);
    assert forall|q: NodeKey, i: int|
        #![trigger u.nodes[q].children[i]]
        u.has(q) && 0 <= i < u.nodes[q].children.len() implies u.parents.contains_key(
        u.nodes[q].children[i],
    ) && u.parents[u.nodes[q].children[i]] == q by {
        let x = u.nodes[q].children[i];
        if q == p {
            assert(without(kids, c).contains(x));
            let j = choose|j: int| 0 <= j < kids.len() && kids[j] == x;
            assert(t.parents.contains_key(t.nodes[p].children[j]));
        } else {
            assert(t.parents.contains_key(t.nodes[q].children[i]));
        }
    }
    assert forall|x: NodeKey| #[trigger] u.parents.contains_key(x) implies u.has(x) && u.has(
        u.parents[x],
    ) && (u.nodes[u.parents[x]].children.contains(x) || (u.is_floating(x) && u.parents[x]
        == u.root)) by {
        assert(t.parents.contains_key(x));
        if t.is_floating(x) {
            assert(u.is_floating(x));
        }
    }
    assert forall|q: NodeKey|
        #![trigger u.nodes[q].children]
        u.has(q) implies u.nodes[q].children.no_duplicates() by {
        assert(t.nodes[q].children.no_duplicates());
    }
    assert forall|i: int| 0 <= i < u.floating.len() implies u.parents.contains_key(
        (#[trigger] u.floating[i]).key,
    ) && u.parents[u.floating[i].key] == u.root && !u.nodes[u.root].children.contains(
        u.floating[i].key,
    ) by {
        assert(t.floating[i] == u.floating[i]);
        assert(t.is_floating(t.floating[i].key));
    }
    assert(u.seated()) by {
        assert forall|x: NodeKey| #[trigger] u.seat.order.contains(x) <==> u.has(x) by {
            assert(t.seat.order.contains(x) <==> t.has(x));
        }
    }
    assert(t.nodes[p].children.len() > 0);
}

/// In a list without duplicates, filtering one entry out is removing it.
pub proof fn lemma_without_is_remove(kids: Seq<NodeKey>, c: NodeKey)
    requires
        kids.no_duplicates(),
        kids.contains(c),
    ensures
        without(kids, c) == kids.remove(kids.index_of(c)),
        0 <= kids.index_of(c) < kids.len(),
        kids[kids.index_of(c)] == c,
    decreases kids.len(),
{
    let live = Set::<NodeKey>::full().remove(c);
    let i = kids.index_of(c);
    let w = choose|i: int| 0 <= i < kids.len() && kids[i] == c;
    assert(0 <= i < kids.len() && kids[i] == c) by {
        assert(kids[w] == c);
    }
    let init = kids.drop_last();
    if i == kids.len() - 1 {
        assert forall|a: NodeKey| #[trigger] init.contains(a) implies live.contains(a) by {
            let j = choose|j: int| 0 <= j < init.len() && init[j] == a;
            assert(kids[j] != kids[i]);
        }
        crate::seat::lemma_within_all(init, live);
        assert(kids.remove(i) =~= init);
    } else {
        assert(init[i] == c);
        assert(init.contains(c));
        lemma_without_is_remove(init, c);
        assert(init.index_of(c) == i) by {
            assert(kids[init.index_of(c)] == kids[i]);
        }
        assert(kids.last() != c) by {
            assert(kids[kids.len() - 1] != kids[i]);
        }
        assert(kids.remove(i) =~= init.remove(i).push(kids.last()));
    }
}

/// Membership after an insertion.
pub proof fn lemma_inserted(kids: Seq<NodeKey>, idx: int, c: NodeKey)
    requires
        0 <= idx,
    ensures
        forall|a: NodeKey| #[trigger]
            inserted(kids, idx, c).contains(a) <==> kids.contains(a) || a == c,
        kids.no_duplicates() && !kids.contains(c) ==> inserted(kids, idx, c).no_duplicates(),
        inserted(kids, idx, c).len() == kids.len() + 1,
        idx <= kids.len() ==> inserted(kids, idx, c)[idx] == c,
{
    let at = if idx <= kids.len() {
        idx
    } else {
        kids.len() as int
    };
    let out = inserted(kids, idx, c);
    assert(out =~= kids.insert(at, c));
    assert forall|a: NodeKey| #[trigger] out.contains(a) <==> kids.contains(a) || a == c by {
        if kids.contains(a) {
            let j = choose|j: int| 0 <= j < kids.len() && kids[j] == a;
            if j < at {
                assert(out[j] == a);
            } else {
                assert(out[j + 1] == a);
            }
        }
        assert(out[at] == c);
        if out.contains(a) {
            let j = choose|j: int| 0 <= j < out.len() && out[j] == a;
            if j < at {
                assert(kids[j] == a);
            } else if j > at {
                assert(kids[j - 1] == a);
            }
        }
    }
    if kids.no_duplicates() && !kids.contains(c) {
        assert forall|i: int, j: int|
            0 <= i < out.len() && 0 <= j < out.len() && i != j implies out[i] != out[j] by {
            let a = if i < at {
                i
            } else {
                i - 1
            };
            let b = if j < at {
                j
            } else {
                j - 1
            };
            if i != at && j != at {
                assert(kids[a] != kids[b]);
            }
        }
    }
}

/// Putting a loose node into a child list outside its own subtree keeps the tree well-formed.
pub proof fn lemma_linked_at(t: Tree, c: NodeKey, p: NodeKey, idx: int)
    requires
        t.wf(),
        t.has(c),
        c != t.root,
        !t.parents.contains_key(c),
        t.is_parent(p),
        !t.under(p, c),
        0 <= idx,
    ensures
        t.linked_at(c, p, idx).wf(),
{
    let u = t.linked_at(c, p, idx);
    let kids = t.nodes[p].children;
    lemma_acyclic_insert(t.parents, c, p);
    assert(!kids.contains(c)) by {
        if kids.contains(c) {
            let j = choose|j: int| 0 <= j < kids.len() && kids[j] == c;
            assert(t.parents.contains_key(t.nodes[p].children[j]));
        }
    }
    lemma_inserted(kids, idx, c);
    assert(!t.is_floating(c)) by {
        if t.is_floating(c) {
            let i = choose|i: int| 0 <= i < t.floating.len() && #[trigger] t.floating[i].key == c;
            assert(t.parents.contains_key(t.floating[i].key));
        }
    }
    assert forall|q: NodeKey, i: int|
        #![trigger u.nodes[q].children[i]]
        u.has(q) && 0 <= i < u.nodes[q].children.len() implies u.parents.contains_key(
        u.nodes[q].children[i],
    ) && u.parents[u.nodes[q].children[i]] == q by {
        let x = u.nodes[q].children[i];
        if q == p {
            assert(inserted(kids, idx, c).contains(x));
            if x != c {
                let j = choose|j: int| 0 <= j < kids.len() && kids[j] == x;
                assert(t.parents.contains_key(t.nodes[p].children[j]));
            }
        } else {
            assert(t.parents.contains_key(t.nodes[q].children[i]));
        }
    }
    assert forall|x: NodeKey| #[trigger] u.parents.contains_key(x) implies u.has(x) && u.has(
        u.parents[x],
    ) && (u.nodes[u.parents[x]].children.contains(x) || (u.is_floating(x) && u.parents[x]
        == u.root)) by {
        if x != c {
            assert(t.parents.contains_key(x));
            if t.is_floating(x) {
                assert(u.is_floating(x));
            }
        }
    }
    assert forall|q: NodeKey|
        #![trigger u.nodes[q].children]
        u.has(q) implies u.nodes[q].children.no_duplicates() by {
        assert(t.nodes[q].children.no_duplicates());
    }
    assert forall|i: int| 0 <= i < u.floating.len() implies u.parents.contains_key(
        (#[trigger] u.floating[i]).key,
    ) && u.parents[u.floating[i].key] == u.root && !u.nodes[u.root].children.contains(
        u.floating[i].key,
    ) by {
        assert(t.floating[i] == u.floating[i]);
        assert(t.is_floating(t.floating[i].key));
    }
    assert(u.seated()) by {
        assert forall|x: NodeKey| #[trigger] u.seat.order.contains(x) <==> u.has(x) by {
            assert(t.seat.order.contains(x) <==> t.has(x));
        }
    }
}

/// Putting a loose container on the floating stack keeps the tree well-formed.
pub proof fn lemma_floated(t: Tree, entry: FloatingRoot, idx: int)
    requires
        t.wf(),
        t.has(entry.key),
        entry.key != t.root,
        !t.parents.contains_key(entry.key),
        0 <= idx <= t.floating.len(),
    ensures
        t.floated(entry, idx).wf(),
        t.floated(entry, idx).is_floating(entry.key),
{
    let u = t.floated(entry, idx);
    let c = entry.key;
    assert(!t.under(t.root, c));
    lemma_acyclic_insert(t.parents, c, t.root);
    assert(!t.is_floating(c)) by {
        if t.is_floating(c) {
            let i = choose|i: int| 0 <= i < t.floating.len() && #[trigger] t.floating[i].key == c;
            assert(t.parents.contains_key(t.floating[i].key));
        }
    }
    assert(u.floating[idx].key == c);
    assert forall|x: NodeKey| t.is_floating(x) implies #[trigger] u.is_floating(x) by {
        let i = choose|i: int| 0 <= i < t.floating.len() && #[trigger] t.floating[i].key == x;
        if i < idx {
            assert(u.floating[i].key == x);
        } else {
            assert(u.floating[i + 1].key == x);
        }
    }
    assert forall|q: NodeKey, i: int|
        #![trigger u.nodes[q].children[i]]
        u.has(q) && 0 <= i < u.nodes[q].children.len() implies u.parents.contains_key(
        u.nodes[q].children[i],
    ) && u.parents[u.nodes[q].children[i]] == q by {
        assert(t.parents.contains_key(t.nodes[q].children[i]));
    }
    assert forall|x: NodeKey| #[trigger] u.parents.contains_key(x) implies u.has(x) && u.has(
        u.parents[x],
    ) && (u.nodes[u.parents[x]].children.contains(x) || (u.is_floating(x) && u.parents[x]
        == u.root)) by {
        if x != c {
            assert(t.parents.contains_key(x));
            if t.is_floating(x) {
                assert(u.is_floating(x));
            }
        }
    }
    assert(!t.nodes[t.root].children.contains(c)) by {
        if t.nodes[t.root].children.contains(c) {
            let j = choose|j: int|
                0 <= j < t.nodes[t.root].children.len() && t.nodes[t.root].children[j] == c;
            assert(t.parents.contains_key(t.nodes[t.root].children[j]));
        }
    }
    assert forall|i: int| 0 <= i < u.floating.len() implies u.parents.contains_key(
        (#[trigger] u.floating[i]).key,
    ) && u.parents[u.floating[i].key] == u.root && !u.nodes[u.root].children.contains(
        u.floating[i].key,
    ) by {
        if i < idx {
            assert(t.floating[i] == u.floating[i]);
        } else if i > idx {
            assert(t.floating[i - 1] == u.floating[i]);
        }
    }
    assert forall|i: int, j: int|
        0 <= i < u.floating.len() && 0 <= j < u.floating.len() && i != j implies (#[trigger]
    u.floating[i]).key != (#[trigger] u.floating[j]).key by {
        let a = if i < idx {
            i
        } else {
            i - 1
        };
        let b = if j < idx {
            j
        } else {
            j - 1
        };
        if i != idx && j != idx {
            assert(t.floating[a].key != t.floating[b].key);
        } else if i == idx {
            assert(t.is_floating(t.floating[b].key));
        } else {
            assert(t.is_floating(t.floating[a].key));
        }
    }
    assert(u.seated()) by {
        assert forall|x: NodeKey| #[trigger] u.seat.order.contains(x) <==> u.has(x) by {
            assert(t.seat.order.contains(x) <==> t.has(x));
        }
    }
}

/// Taking a group off the floating stack keeps the tree well-formed and leaves it loose.
pub proof fn lemma_unfloated(t: Tree, i: int)
    requires
        t.wf(),
        0 <= i < t.floating.len(),
    ensures
        t.unfloated(i).wf(),
        !t.unfloated(i).parents.contains_key(t.floating[i].key),
        t.has(t.floating[i].key),
        t.floating[i].key != t.root,
{
    let u = t.unfloated(i);
    let c = t.floating[i].key;
    assert(t.parents.contains_key(t.floating[i].key));
    lemma_acyclic_remove(t.parents, c);
    assert forall|j: int| 0 <= j < u.floating.len() implies #[trigger] u.floating[j]
        == t.floating[if j < i {
        j
    } else {
        j + 1
    }] by {}
    assert forall|x: NodeKey| t.is_floating(x) && x != c implies #[trigger] u.is_floating(x) by {
        let j = choose|j: int| 0 <= j < t.floating.len() && #[trigger] t.floating[j].key == x;
        if j < i {
            assert(u.floating[j].key == x);
        } else {
            assert(u.floating[j - 1].key == x);
        }
    }
    assert(!t.nodes[t.root].children.contains(c));
    assert forall|q: NodeKey, j: int|
        #![trigger u.nodes[q].children[j]]
        u.has(q) && 0 <= j < u.nodes[q].children.len() implies u.parents.contains_key(
        u.nodes[q].children[j],
    ) && u.parents[u.nodes[q].children[j]] == q by {
        assert(t.parents.contains_key(t.nodes[q].children[j]));
        if t.nodes[q].children[j] == c {
            assert(t.nodes[q].children.contains(c));
        }
    }
    assert forall|x: NodeKey| #[trigger] u.parents.contains_key(x) implies u.has(x) && u.has(
        u.parents[x],
    ) && (u.nodes[u.parents[x]].children.contains(x) || (u.is_floating(x) && u.parents[x]
        == u.root)) by {
        assert(t.parents.contains_key(x));
        if t.is_floating(x) {
            assert(u.is_floating(x));
        }
    }
    assert forall|j: int| 0 <= j < u.floating.len() implies u.parents.contains_key(
        (#[trigger] u.floating[j]).key,
    ) && u.parents[u.floating[j].key] == u.root && !u.nodes[u.root].children.contains(
        u.floating[j].key,
    ) by {
        let k = if j < i {
            j
        } else {
            j + 1
        };
        assert(t.floating[k].key != t.floating[i].key);
    }
    assert forall|a: int, b: int|
        0 <= a < u.floating.len() && 0 <= b < u.floating.len() && a != b implies (#[trigger]
    u.floating[a]).key != (#[trigger] u.floating[b]).key by {
        let x = if a < i {
            a
        } else {
            a + 1
        };
        let y = if b < i {
            b
        } else {
            b + 1
        };
        assert(t.floating[x].key != t.floating[y].key);
    }
    assert(u.seated()) by {
        assert forall|x: NodeKey| #[trigger] u.seat.order.contains(x) <==> u.has(x) by {
            assert(t.seat.order.contains(x) <==> t.has(x));
        }
    }
}

/// A change of the seat that keeps the order whole keeps the tree well-formed.
pub proof fn lemma_with_seat(t: Tree, seat: Seat)
    requires
        t.wf(),
        seat.order.no_duplicates(),
        forall|k: NodeKey| #[trigger] seat.order.contains(k) <==> t.seat.order.contains(k),
    ensures
        t.with_seat(seat).wf(),
{
    let u = t.with_seat(seat);
    assert(u.linked()) by {
        assert forall|c: NodeKey| #[trigger] u.parents.contains_key(c) implies u.has(c) && u.has(
            u.parents[c],
        ) && (u.nodes[u.parents[c]].children.contains(c) || (u.is_floating(c) && u.parents[c]
            == u.root)) by {
            assert(t.parents.contains_key(c));
            if t.is_floating(c) {
                assert(u.is_floating(c));
            }
        }
        assert forall|p: NodeKey, i: int|
            #![trigger u.nodes[p].children[i]]
            u.has(p) && 0 <= i < u.nodes[p].children.len() implies u.parents.contains_key(
            u.nodes[p].children[i],
        ) && u.parents[u.nodes[p].children[i]] == p by {
            assert(t.parents.contains_key(t.nodes[p].children[i]));
        }
    }
    assert(u.floats()) by {
        assert forall|i: int| 0 <= i < u.floating.len() implies u.parents.contains_key(
            (#[trigger] u.floating[i]).key,
        ) && u.parents[u.floating[i].key] == u.root && !u.nodes[u.root].children.contains(
            u.floating[i].key,
        ) by {
            assert(t.floating[i] == u.floating[i]);
        }
    }
    assert(u.seated()) by {
        assert forall|x: NodeKey| #[trigger] u.seat.order.contains(x) <==> u.has(x) by {
            assert(t.seat.order.contains(x) <==> t.has(x));
        }
    }
}

/// Bringing one live node to the front of the order keeps the tree well-formed.
pub proof fn lemma_raw_focused(t: Tree, k: NodeKey)
    requires
        t.wf(),
        t.has(k),
    ensures
        t.with_seat(t.seat.raw_focus(k)).wf(),
{
    lemma_fronted(t.seat.order, k);
    assert(t.seat.order.contains(k));
    lemma_with_seat(t, t.seat.raw_focus(k));
}

/// Raising the ancestry of a live node keeps the tree well-formed, whatever the focused view
/// and the selection become.
pub proof fn lemma_raised_lineage(
    t: Tree,
    k: NodeKey,
    leaf: Option<NodeKey>,
    selected: Option<NodeKey>,
)
    requires
        t.wf(),
        t.has(k),
    ensures
        t.with_seat(
            (Seat { order: raised(t.seat.order, lineage(t.parents, k)), leaf, selected }),
        ).wf(),
{
    let chain = lineage(t.parents, k);
    lemma_raised(t.seat.order, chain);
    lemma_lineage(t.parents, k);
    lemma_lineage_live(t, k);
    let seat = Seat { order: raised(t.seat.order, chain), leaf, selected };
    assert forall|x: NodeKey| #[trigger] seat.order.contains(x) <==> t.seat.order.contains(x) by {
        if chain.contains(x) {
            assert(t.has(x));
            assert(t.seat.order.contains(x));
        }
    }
    lemma_with_seat(t, seat);
}

/// Every ancestor of a live node is live.
pub proof fn lemma_lineage_live(t: Tree, k: NodeKey)
    requires
        t.wf(),
        t.has(k),
    ensures
        forall|a: NodeKey| #[trigger] lineage(t.parents, k).contains(a) ==> t.has(a),
        forall|a: NodeKey| #[trigger] t.under(k, a) ==> t.has(a),
    decreases depth(t.parents, k),
{
    lemma_lineage(t.parents, k);
    if t.parents.contains_key(k) {
        lemma_depth(t.parents, k);
        lemma_lineage_live(t, t.parents[k]);
        lemma_lineage(t.parents, t.parents[k]);
    }
    assert forall|a: NodeKey| #[trigger] t.under(k, a) implies t.has(a) by {
        if a != k {
            assert(t.under(t.parents[k], a));
        }
    }
    assert forall|a: NodeKey| #[trigger] lineage(t.parents, k).contains(a) implies t.has(a) by {
        assert(t.under(k, a));
    }
}

// ---------------------------------------------------------------------------------------------
// Branches, and what the focus order answers
// ---------------------------------------------------------------------------------------------

/// What is looked for in the focus order.
#[derive(Debug, Clone, Copy, PartialEq, Eq, Structural)]
pub enum Pick {
    /// Any window.
    View,
    /// A window at or below a node.
    ViewUnder(NodeKey),
    /// A window of one branch.
    ViewInBranch(NodeKey),
    /// A window of any floating group.
    FloatingView,
    /// The window with this identity.
    Window(u64),
    /// Any node of one branch but the workspace.
    NodeInBranch(NodeKey),
    /// Any node of the workspace but the workspace itself.
    BelowWorkspace,
    /// A child of a node; of the workspace, a tiled one.
    ChildOf(NodeKey),
}

impl Tree {
    /// The root of the branch a node is in: the root of its floating group, else the
    /// workspace. A node of no branch answers with its topmost ancestor.
    pub open spec fn branch(self, k: NodeKey) -> NodeKey
        decreases depth(self.parents, k),
        when acyclic(self.parents)
    {
        proof {
            if self.parents.contains_key(k) {
                lemma_depth(self.parents, k);
            }
        }
        if !self.parents.contains_key(k) {
            k
        } else if self.parents[k] == self.root {
            if self.is_floating(k) {
                k
            } else {
                self.root
            }
        } else {
            self.branch(self.parents[k])
        }
    }

    /// Whether a node belongs to a floating group.
    pub open spec fn in_float(self, k: NodeKey) -> bool {
        self.is_floating(self.branch(k))
    }

    pub open spec fn meets(self, pick: Pick, c: NodeKey) -> bool {
        match pick {
            Pick::View => self.is_view(c),
            Pick::ViewUnder(top) => self.is_view(c) && self.under(c, top),
            Pick::ViewInBranch(branch) => self.is_view(c) && self.branch(c) == branch,
            Pick::FloatingView => self.is_view(c) && self.in_float(c),
            Pick::Window(id) => self.is_view(c) && self.nodes[c].tile->0.window.id == id,
            Pick::NodeInBranch(branch) => c != self.root && self.has(c) && self.branch(c)
                == branch,
            Pick::BelowWorkspace => c != self.root && self.has(c) && self.under(c, self.root),
            Pick::ChildOf(p) => self.parent(c) == Some(p) && (p != self.root || self.branch(c)
                == self.root),
        }
    }

    /// The first of `keys` that is what is looked for.
    pub open spec fn first_of(self, keys: Seq<NodeKey>, pick: Pick) -> Option<NodeKey>
        decreases keys.len(),
    {
        if keys.len() == 0 {
            None
        } else if self.meets(pick, keys[0]) {
            Some(keys[0])
        } else {
            self.first_of(keys.drop_first(), pick)
        }
    }

    /// The most recently focused node that is what is looked for.
    pub open spec fn recent(self, pick: Pick) -> Option<NodeKey> {
        self.first_of(self.seat.order, pick)
    }

    /// The child a parent shows: the most recently focused, else the first.
    pub open spec fn active(self, p: NodeKey) -> Option<NodeKey> {
        match self.recent(Pick::ChildOf(p)) {
            Some(c) => Some(c),
            None => if self.kids(p).len() > 0 {
                Some(self.kids(p)[0])
            } else {
                None
            },
        }
    }

    /// The window a node leads to along active children.
    pub open spec fn leaf_under(self, k: NodeKey) -> Option<NodeKey>
        decreases room(self.parents, k),
        when self.wf()
    {
        proof {
            lemma_active(self, k);
            if self.active(k) is Some {
                lemma_depth(self.parents, self.active(k)->0);
            }
        }
        if self.is_view(k) {
            Some(k)
        } else if self.is_parent(k) {
            match self.active(k) {
                Some(c) => self.leaf_under(c),
                None => None,
            }
        } else {
            None
        }
    }

    /// The windows at or below a node, depth first.
    pub open spec fn leaves(self, k: NodeKey) -> Seq<NodeKey>
        decreases room(self.parents, k), self.kids(k).len() + 2,
        when self.wf()
    {
        if self.is_view(k) {
            seq![k]
        } else {
            self.leaves_from(k, 0)
        }
    }

    /// The windows of the children of `k` from index `i` on.
    pub open spec fn leaves_from(self, k: NodeKey, i: int) -> Seq<NodeKey>
        decreases room(self.parents, k), self.kids(k).len() - i + 1,
        when self.wf()
    {
        proof {
            if 0 <= i < self.kids(k).len() {
                assert(self.parents.contains_key(self.nodes[k].children[i]));
                lemma_depth(self.parents, self.kids(k)[i]);
            }
        }
        if 0 <= i < self.kids(k).len() {
            self.leaves(self.kids(k)[i]) + self.leaves_from(k, i + 1)
        } else {
            Seq::empty()
        }
    }

    /// The windows of the floating groups from stack place `i` on, depth first.
    pub open spec fn floating_leaves_from(self, i: int) -> Seq<NodeKey>
        decreases self.floating.len() - i,
    {
        if 0 <= i < self.floating.len() {
            self.leaves(self.floating[i].key) + self.floating_leaves_from(i + 1)
        } else {
            Seq::empty()
        }
    }

    /// Every window of the workspace: the tiled ones, then the floating groups'.
    pub open spec fn all_leaves(self) -> Seq<NodeKey> {
        self.leaves(self.root) + self.floating_leaves_from(0)
    }
}

/// What the first match is: in the list, a match, and nothing before it is one.
pub proof fn lemma_first_of(t: Tree, keys: Seq<NodeKey>, pick: Pick)
    ensures
        t.first_of(keys, pick) is None <==> forall|i: int|
            0 <= i < keys.len() ==> !t.meets(pick, #[trigger] keys[i]),
        t.first_of(keys, pick) matches Some(c) ==> t.meets(pick, c) && keys.contains(c)
            && exists|i: int|
            0 <= i < keys.len() && #[trigger] keys[i] == c && forall|j: int|
                0 <= j < i ==> !t.meets(pick, #[trigger] keys[j]),
    decreases keys.len(),
{
    if keys.len() > 0 {
        if t.meets(pick, keys[0]) {
            assert(keys[0] == keys[0]);
            assert(keys.contains(keys[0]));
        } else {
            let rest = keys.drop_first();
            lemma_first_of(t, rest, pick);
            assert(forall|i: int| 0 <= i < rest.len() ==> #[trigger] rest[i] == keys[i + 1]);
            match t.first_of(rest, pick) {
                Some(c) => {
                    let i = choose|i: int|
                        0 <= i < rest.len() && #[trigger] rest[i] == c && forall|j: int|
                            0 <= j < i ==> !t.meets(pick, #[trigger] rest[j]);
                    assert(keys[i + 1] == c);
                    assert forall|j: int| 0 <= j < i + 1 implies !t.meets(
                        pick,
                        #[trigger] keys[j],
                    ) by {
                        if j > 0 {
                            assert(!t.meets(pick, rest[j - 1]));
                        }
                    }
                },
                None => {
                    assert forall|i: int| 0 <= i < keys.len() implies !t.meets(
                        pick,
                        #[trigger] keys[i],
                    ) by {
                        if i > 0 {
                            assert(!t.meets(pick, rest[i - 1]));
                        }
                    }
                },
            }
        }
    }
}

/// The active child of a node is a child of it, and there is one wherever there are children.
pub proof fn lemma_active(t: Tree, p: NodeKey)
    requires
        t.wf(),
    ensures
        t.active(p) matches Some(c) ==> t.parents.contains_key(c) && t.parents[c] == p && t.has(
            c,
        ),
        t.kids(p).len() > 0 ==> t.active(p) is Some,
{
    lemma_first_of(t, t.seat.order, Pick::ChildOf(p));
    match t.recent(Pick::ChildOf(p)) {
        Some(c) => {
            assert(t.parents.contains_key(c));
        },
        None => {
            if t.kids(p).len() > 0 {
                assert(t.parents.contains_key(t.nodes[p].children[0]));
            }
        },
    }
}

/// A node below the workspace or a floating group is in the branch its parent is in.
pub proof fn lemma_branch_step(t: Tree, k: NodeKey)
    requires
        t.wf(),
        t.parents.contains_key(k),
    ensures
        t.parents[k] != t.root ==> t.branch(k) == t.branch(t.parents[k]),
        t.parents[k] == t.root && !t.is_floating(k) ==> t.branch(k) == t.root,
        t.is_floating(k) ==> t.branch(k) == k,
        t.branch(t.root) == t.root,
{
    if t.is_floating(k) {
        let i = choose|i: int| 0 <= i < t.floating.len() && #[trigger] t.floating[i].key == k;
        assert(t.parents[t.floating[i].key] == t.root);
    }
}

/// The root of a node's branch is above it or is the workspace, and answers for itself.
pub proof fn lemma_branch(t: Tree, k: NodeKey)
    requires
        t.wf(),
        t.has(k),
    ensures
        t.has(t.branch(k)),
        t.under(k, t.branch(k)),
        t.branch(t.branch(k)) == t.branch(k),
        t.branch(k) == t.root || t.is_floating(t.branch(k)) || !t.parents.contains_key(
            t.branch(k),
        ),
    decreases depth(t.parents, k),
{
    if t.parents.contains_key(k) {
        lemma_depth(t.parents, k);
        assert(t.has(t.parents[k]));
        if t.parents[k] == t.root {
            assert(t.under(t.root, t.root));
            assert(t.branch(t.root) == t.root);
            if t.is_floating(k) {
                assert(t.branch(k) == k);
            }
        } else {
            lemma_branch(t, t.parents[k]);
        }
    }
}

/// What owns fullscreen does not matter to the shape of the tree.
pub proof fn lemma_with_fullscreen(t: Tree, fullscreen: Option<NodeKey>)
    ensures
        t.wf() ==> t.with_fullscreen(fullscreen).wf(),
{
    let u = t.with_fullscreen(fullscreen);
    if t.wf() {
        lemma_same_shape(t, u);
    }
}

/// Trees that agree on nodes, links, focus order, floating stack and numbering are well-formed
/// together.
pub proof fn lemma_same_shape(t: Tree, u: Tree)
    requires
        t.wf(),
        u.nodes == t.nodes,
        u.parents == t.parents,
        u.root == t.root,
        u.seat.order == t.seat.order,
        u.floating == t.floating,
        u.next_key == t.next_key,
    ensures
        u.wf(),
        forall|k: NodeKey| #[trigger] u.is_floating(k) == t.is_floating(k),
{
    assert forall|k: NodeKey| #[trigger] u.is_floating(k) == t.is_floating(k) by {
        if t.is_floating(k) {
            let i = choose|i: int| 0 <= i < t.floating.len() && #[trigger] t.floating[i].key == k;
            assert(u.floating[i].key == k);
        }
        if u.is_floating(k) {
            let i = choose|i: int| 0 <= i < u.floating.len() && #[trigger] u.floating[i].key == k;
            assert(t.floating[i].key == k);
        }
    }
    assert(u.linked()) by {
        assert forall|c: NodeKey| #[trigger] u.parents.contains_key(c) implies u.has(c) && u.has(
            u.parents[c],
        ) && (u.nodes[u.parents[c]].children.contains(c) || (u.is_floating(c) && u.parents[c]
            == u.root)) by {
            assert(t.parents.contains_key(c));
        }
        assert forall|p: NodeKey, i: int|
            #![trigger u.nodes[p].children[i]]
            u.has(p) && 0 <= i < u.nodes[p].children.len() implies u.parents.contains_key(
            u.nodes[p].children[i],
        ) && u.parents[u.nodes[p].children[i]] == p by {
            assert(t.parents.contains_key(t.nodes[p].children[i]));
        }
    }
    assert(u.floats()) by {
        assert forall|i: int| 0 <= i < u.floating.len() implies u.parents.contains_key(
            (#[trigger] u.floating[i]).key,
        ) && u.parents[u.floating[i].key] == u.root && !u.nodes[u.root].children.contains(
            u.floating[i].key,
        ) by {
            assert(t.floating[i] == u.floating[i]);
        }
    }
    assert(u.seated()) by {
        assert forall|x: NodeKey| #[trigger] u.seat.order.contains(x) <==> u.has(x) by {
            assert(t.seat.order.contains(x) <==> t.has(x));
        }
    }
}

/// The links with those of `keys` pointed at `p`.
pub open spec fn relinked(
    parents: Map<NodeKey, NodeKey>,
    keys: Seq<NodeKey>,
    p: NodeKey,
) -> Map<NodeKey, NodeKey>
    decreases keys.len(),
{
    if keys.len() == 0 {
        parents
    } else {
        relinked(parents, keys.drop_last(), p).insert(keys.last(), p)
    }
}

/// What relinking does, key by key.
pub proof fn lemma_relinked(parents: Map<NodeKey, NodeKey>, keys: Seq<NodeKey>, p: NodeKey)
    ensures
        forall|k: NodeKey| #[trigger]
            relinked(parents, keys, p).contains_key(k) <==> keys.contains(k)
                || parents.contains_key(k),
        forall|k: NodeKey|
            relinked(parents, keys, p).contains_key(k) ==> #[trigger] relinked(
                parents,
                keys,
                p,
            )[k] == if keys.contains(k) {
                p
            } else {
                parents[k]
            },
    decreases keys.len(),
{
    if keys.len() > 0 {
        let init = keys.drop_last();
        let last = keys.last();
        lemma_relinked(parents, init, p);
        lemma_push_contains(init, last);
        assert(init.push(last) =~= keys);
        let before = relinked(parents, init, p);
        let after = relinked(parents, keys, p);
        assert(after == before.insert(last, p));
        assert forall|k: NodeKey| #[trigger] after.contains_key(k) <==> keys.contains(k)
            || parents.contains_key(k) by {
            assert(before.contains_key(k) <==> init.contains(k) || parents.contains_key(k));
            assert(init.push(last).contains(k) <==> init.contains(k) || k == last);
        }
        assert forall|k: NodeKey| after.contains_key(k) implies #[trigger] after[k]
            == if keys.contains(k) {
            p
        } else {
            parents[k]
        } by {
            assert(before.contains_key(k) <==> init.contains(k) || parents.contains_key(k));
            assert(init.push(last).contains(k) <==> init.contains(k) || k == last);
            if k != last {
                assert(before.contains_key(k));
                assert(before[k] == if init.contains(k) {
                    p
                } else {
                    parents[k]
                });
            }
        }
    }
}

/// Raising the next identity keeps the tree well-formed.
pub proof fn lemma_renumbered(t: Tree, next_key: u64)
    requires
        t.wf(),
        t.next_key <= next_key,
    ensures
        (Tree { next_key, ..t }).wf(),
{
    let u = Tree { next_key, ..t };
    assert forall|k: NodeKey| #[trigger] u.is_floating(k) == t.is_floating(k) by {
        if u.is_floating(k) {
            let i = choose|i: int| 0 <= i < u.floating.len() && #[trigger] u.floating[i].key == k;
            assert(t.floating[i].key == k);
        }
        if t.is_floating(k) {
            let i = choose|i: int| 0 <= i < t.floating.len() && #[trigger] t.floating[i].key == k;
            assert(u.floating[i].key == k);
        }
    }
    assert(u.linked());
    assert(u.floats());
}

} // verus!
