//! Two nodes trading places. What travels is the slot's size, not the node's: each node takes
//! over the box and the shares the other had.

use crate::arena::ContainerArena;
use crate::axis::NodeKey;
use crate::links::{lemma_under_insert, lemma_under_remove};
use crate::movement::{lemma_exchanged, lemma_reordered};
use crate::tree::{
    lemma_acyclic_insert, lemma_depth, lemma_floated, lemma_linked_at,
    lemma_parent_not_under_child, lemma_unfloated, lemma_unlinked, under, FloatingRoot,
    FloatingRootKind, Tree,
};
use crate::walk::lemma_slot;
use vstd::prelude::*;

verus! {

impl Tree {
    /// Two nodes of different parents with their slots exchanged.
    pub open spec fn crossed(self, a: NodeKey, b: NodeKey) -> Tree {
        let pa = self.parents[a];
        let pb = self.parents[b];
        let ia = self.kids(pa).index_of(a);
        let ib = self.kids(pb).index_of(b);
        self.unlinked(a).unlinked(b).linked_at(b, pa, ia).linked_at(a, pb, ib)
    }

    /// Two nodes with their slots exchanged.
    #[verifier::opaque]
    pub open spec fn slots_exchanged(self, a: NodeKey, b: NodeKey) -> Tree {
        if self.parents[a] == self.parents[b] {
            self.slots_swapped(self.parents[a], a, b)
        } else {
            self.crossed(a, b)
        }
    }

    /// A floating root and a tiled or inner node with their places exchanged: the node takes
    /// the entry on the stack, the root takes the slot.
    #[verifier::opaque]
    pub open spec fn boundary_crossed(self, root: NodeKey, node: NodeKey) -> Tree {
        let p = self.parents[node];
        let idx = self.kids(p).index_of(node);
        let i = self.stack_index(root);
        let entry = FloatingRoot {
            key: node,
            kind: if self.is_view(node) {
                FloatingRootKind::ImplicitWindowGroup
            } else {
                FloatingRootKind::FloatedContainer
            },
            ..self.floating[i]
        };
        self.unlinked(node).unfloated(i).linked_at(root, p, idx).floated(entry, i)
    }

    /// Two floating roots with their entries exchanged; the geometry stays with the place.
    #[verifier::opaque]
    pub open spec fn stack_crossed(self, a: NodeKey, b: NodeKey) -> Tree {
        let i = self.stack_index(a);
        let j = self.stack_index(b);
        let ea = self.floating[i];
        let eb = self.floating[j];
        self.with_floating(
            self.floating.update(i, FloatingRoot { geometry: ea.geometry, ..eb }).update(
                j,
                FloatingRoot { geometry: eb.geometry, ..ea },
            ),
        )
    }

    /// Each of two nodes with the box the other had.
    #[verifier::opaque]
    pub open spec fn boxes_swapped(self, a: NodeKey, b: NodeKey) -> Tree {
        let t = match self.box_of(b) {
            Some(rect) => self.with_box(a, rect),
            None => self,
        };
        match self.box_of(a) {
            Some(rect) => t.with_box(b, rect),
            None => t,
        }
    }

    /// Each of two nodes with the shares the other had.
    #[verifier::opaque]
    pub open spec fn shares_swapped(self, a: NodeKey, b: NodeKey) -> Tree {
        let t = match self.fractions_of(b) {
            Some(fractions) => self.with_fractions(a, fractions),
            None => self,
        };
        match self.fractions_of(a) {
            Some(fractions) => t.with_fractions(b, fractions),
            None => t,
        }
    }

    /// A window focused, or a container selected.
    pub open spec fn refocused(self, k: NodeKey) -> Tree {
        if self.is_view(k) {
            self.focused(k)
        } else if self.is_container(k) {
            self.selecting(k)
        } else {
            self
        }
    }

    /// The focus after a swap: on the node that had it. One that came out of a switcher lets
    /// the other be focused first, so that both switchers show what arrived.
    #[verifier::opaque]
    pub open spec fn swap_refocused(self, a: NodeKey, b: NodeKey, held: Option<NodeKey>) -> Tree {
        match held {
            Some(f) if self.has(f) => {
                let t = if f == a && self.in_switcher(b) {
                    self.refocused(b)
                } else if f == b && self.in_switcher(a) {
                    self.refocused(a)
                } else {
                    self
                };
                if t.seat.node() != Some(f) {
                    t.refocused(f)
                } else {
                    t
                }
            },
            _ => self,
        }
    }

    /// Fullscreen after a swap: it stays with the place, and its new owner is focused.
    #[verifier::opaque]
    pub open spec fn swap_fullscreen(self, a: NodeKey, b: NodeKey) -> Tree {
        if self.fullscreen == Some(a) {
            self.fullscreen_moved(a, b).refocused(b)
        } else if self.fullscreen == Some(b) {
            self.fullscreen_moved(b, a).refocused(a)
        } else {
            self
        }
    }

    /// Whether two nodes can trade places at all: both live, neither above the other.
    pub open spec fn swappable(self, a: NodeKey, b: NodeKey) -> bool {
        a != b && self.has(a) && self.has(b) && !self.under(a, b) && !self.under(b, a)
    }

    /// Two nodes swapped, and whether they could be.
    pub open spec fn swapped(self, a: NodeKey, b: NodeKey) -> (Tree, bool) {
        if !self.swappable(a, b) || self.slot_of(a) is None || self.slot_of(b) is None {
            (self, false)
        } else {
            (
                self.boxes_swapped(a, b).shares_swapped(a, b).slots_exchanged(
                    a,
                    b,
                ).swap_refocused(a, b, self.seat.node()).swap_fullscreen(a, b),
                true,
            )
        }
    }

    /// Two floating roots swapped.
    #[verifier::opaque]
    pub open spec fn groups_swapped(self, a: NodeKey, b: NodeKey) -> Tree {
        self.boxes_swapped(a, b).stack_crossed(a, b).shares_swapped(a, b).swap_refocused(
            a,
            b,
            self.seat.node(),
        ).swap_fullscreen(a, b)
    }

    /// A floating root swapped with a node of a child list.
    #[verifier::opaque]
    pub open spec fn group_swapped_with(self, root: NodeKey, node: NodeKey) -> Tree {
        self.boxes_swapped(root, node).shares_swapped(root, node).boundary_crossed(
            root,
            node,
        ).swap_refocused(root, node, self.seat.node()).swap_fullscreen(root, node).readdressed()
    }

    /// Two nodes swapped when at least one of them is a floating root.
    pub open spec fn swapped_at_boundary(self, a: NodeKey, b: NodeKey) -> (Tree, bool) {
        if !self.swappable(a, b) {
            (self, false)
        } else if self.is_floating(a) && self.is_floating(b) {
            (self.groups_swapped(a, b), true)
        } else if !self.is_floating(a) && !self.is_floating(b) {
            (self, false)
        } else {
            let (root, node) = if self.is_floating(a) {
                (a, b)
            } else {
                (b, a)
            };
            if self.slot_of(node) is None {
                (self, false)
            } else {
                (self.group_swapped_with(root, node), true)
            }
        }
    }
}

/// Exchanging slots keeps the tree well-formed.
#[verifier::spinoff_prover]
pub proof fn lemma_crossed(t: Tree, a: NodeKey, b: NodeKey)
    requires
        t.wf(),
        t.swappable(a, b),
        t.slot_of(a) is Some,
        t.slot_of(b) is Some,
        t.parents[a] != t.parents[b],
    ensures
        !t.is_floating(a),
        !t.is_floating(b),
        t.unlinked(a).wf(),
        t.unlinked(a).parents.contains_key(b),
        !t.unlinked(a).is_floating(b),
        t.unlinked(a).unlinked(b).wf(),
        !t.unlinked(a).unlinked(b).under(t.parents[a], b),
        ({
            let ia = t.kids(t.parents[a]).index_of(a);
            let u = t.unlinked(a).unlinked(b).linked_at(b, t.parents[a], ia);
            u.wf() && !u.under(t.parents[b], a) && !u.parents.contains_key(a)
        }),
        t.crossed(a, b).wf(),
        t.crossed(a, b).parents == t.parents.insert(a, t.parents[b]).insert(b, t.parents[a]),
        t.crossed(a, b).nodes[t.parents[a]].children == t.nodes[t.parents[a]].children.update(
            t.kids(t.parents[a]).index_of(a),
            b,
        ),
        t.crossed(a, b).nodes[t.parents[b]].children == t.nodes[t.parents[b]].children.update(
            t.kids(t.parents[b]).index_of(b),
            a,
        ),
        forall|x: NodeKey| #[trigger] t.crossed(a, b).has(x) <==> t.has(x),
        forall|x: NodeKey|
            x != t.parents[a] && x != t.parents[b] && t.has(x) ==> #[trigger] t.crossed(
                a,
                b,
            ).nodes[x] == t.nodes[x],
        t.crossed(a, b).nodes[t.parents[a]] == t.nodes[t.parents[a]].with_children(
            t.crossed(a, b).nodes[t.parents[a]].children,
        ),
        t.crossed(a, b).nodes[t.parents[b]] == t.nodes[t.parents[b]].with_children(
            t.crossed(a, b).nodes[t.parents[b]].children,
        ),
{
    let pa = t.parents[a];
    let pb = t.parents[b];
    let ia = t.kids(pa).index_of(a);
    let ib = t.kids(pb).index_of(b);
    lemma_listed_not_floating(t, a);
    lemma_listed_not_floating(t, b);
    lemma_unlinked(t, a);
    let t1 = t.unlinked(a);
    assert(!t1.is_floating(b)) by {
        if t1.is_floating(b) {
            let i = choose|i: int| 0 <= i < t1.floating.len() && #[trigger] t1.floating[i].key
                == b;
            assert(t.floating[i].key == b);
        }
    }
    lemma_unlinked(t1, b);
    let t2 = t1.unlinked(b);
    assert(!t.under(pa, b)) by {
        if t.under(pa, b) {
            assert(t.under(a, b));
        }
    }
    assert(!t.under(pb, a)) by {
        if t.under(pb, a) {
            assert(t.under(b, a));
        }
    }
    if t2.under(pa, b) {
        lemma_under_remove(t1.parents, b, pa, b);
        lemma_under_remove(t.parents, a, pa, b);
    }
    let ka = t.nodes[pa].children;
    let kb = t.nodes[pb].children;
    assert(ka.no_duplicates() && kb.no_duplicates());
    crate::tree::lemma_without_is_remove(ka, a);
    crate::tree::lemma_without_is_remove(kb, b);
    assert(t2.nodes[pa].children == ka.remove(ia));
    assert(t2.nodes[pb].children == kb.remove(ib));
    assert(b != t.root && a != t.root);
    lemma_linked_at(t2, b, pa, ia);
    let t3 = t2.linked_at(b, pa, ia);
    assert(t3.nodes[pa].children =~= ka.update(ia, b));
    assert(t3.nodes[pb].children == kb.remove(ib));
    lemma_acyclic_insert(t2.parents, b, pa);
    if t3.under(pb, a) {
        lemma_under_insert(t2.parents, b, pa, pb, a);
        if under(t2.parents, pb, a) {
            lemma_under_remove(t1.parents, b, pb, a);
            lemma_under_remove(t.parents, a, pb, a);
        } else {
            lemma_under_remove(t1.parents, b, pb, b);
            lemma_under_remove(t.parents, a, pb, b);
            lemma_parent_not_under_child(t.parents, b);
        }
    }
    assert(!t3.parents.contains_key(a));
    lemma_linked_at(t3, a, pb, ib);
    let t4 = t3.linked_at(a, pb, ib);
    assert(t4.nodes[pb].children =~= kb.update(ib, a));
    assert(t4.parents =~= t.parents.insert(a, pb).insert(b, pa));
}

/// A node listed in a parent is not a floating root.
pub proof fn lemma_listed_not_floating(t: Tree, k: NodeKey)
    requires
        t.wf(),
        t.slot_of(k) is Some,
    ensures
        !t.is_floating(k),
        0 <= t.kids(t.parents[k]).index_of(k) < t.kids(t.parents[k]).len(),
        t.kids(t.parents[k])[t.kids(t.parents[k]).index_of(k)] == k,
        t.is_parent(t.parents[k]),
        k != t.root,
{
    let p = t.parents[k];
    let w = choose|w: int| 0 <= w < t.kids(p).len() && t.kids(p)[w] == k;
    lemma_slot(t, p, k, w);
    if t.is_floating(k) {
        let i = choose|i: int| 0 <= i < t.floating.len() && #[trigger] t.floating[i].key == k;
        assert(t.parents[t.floating[i].key] == t.root);
        assert(!t.nodes[t.root].children.contains(t.floating[i].key));
        assert(t.nodes[t.root].children.contains(k));
    }
}

/// Two nodes that trade places twice are where they were.
#[verifier::spinoff_prover]
pub proof fn law_swapping_slots_twice_restores_them(t: Tree, a: NodeKey, b: NodeKey)
    requires
        t.wf(),
        t.swappable(a, b),
        t.slot_of(a) is Some,
        t.slot_of(b) is Some,
    ensures
        t.slots_exchanged(a, b).slots_exchanged(a, b) == t,
{
    reveal(Tree::slots_exchanged);
    let pa = t.parents[a];
    let pb = t.parents[b];
    lemma_listed_not_floating(t, a);
    lemma_listed_not_floating(t, b);
    let ia = t.kids(pa).index_of(a);
    let ib = t.kids(pb).index_of(b);
    let u = t.slots_exchanged(a, b);
    let v = u.slots_exchanged(a, b);
    if pa == pb {
        let kids = t.nodes[pa].children;
        assert(kids.no_duplicates());
        lemma_exchanged(kids, ia, ib);
        let once = kids.update(ia, b).update(ib, a);
        assert(once =~= kids.update(ia, kids[ib]).update(ib, kids[ia]));
        assert(u.nodes[pa].children == once);
        assert(once.index_of(a) == ib) by {
            assert(once[ib] == a);
            assert(once.contains(a));
            assert(once[once.index_of(a)] == once[ib]);
        }
        assert(once.index_of(b) == ia) by {
            assert(once[ia] == b);
            assert(once.contains(b));
            assert(once[once.index_of(b)] == once[ia]);
        }
        assert(once.update(ib, b).update(ia, a) =~= kids);
        assert(v.nodes =~= t.nodes);
        assert(v == t);
    } else {
        lemma_crossed(t, a, b);
        let ka = t.nodes[pa].children;
        let kb = t.nodes[pb].children;
        assert(u.has(pa) && u.has(pb));
        assert(u.kids(pa) == ka.update(ia, b));
        assert(u.kids(pb) == kb.update(ib, a));
        assert(u.kids(pb)[ib] == a);
        assert(u.kids(pa)[ia] == b);
        lemma_slot(u, pb, a, ib);
        lemma_slot(u, pa, b, ia);
        assert(!u.under(a, b)) by {
            if u.under(a, b) {
                lemma_crossed_apart(t, a, b);
            }
        }
        assert(!u.under(b, a)) by {
            if u.under(b, a) {
                lemma_crossed_apart(t, a, b);
            }
        }
        lemma_crossed(u, a, b);
        assert(v.nodes[pb].children =~= kb);
        assert(v.nodes[pa].children =~= ka);
        assert(v.parents =~= t.parents);
        assert(v.nodes =~= t.nodes) by {
            assert forall|x: NodeKey| #[trigger] v.nodes.contains_key(x) implies t.nodes[x]
                == v.nodes[x] by {
                assert(v.has(x) <==> u.has(x));
                assert(u.has(x) <==> t.has(x));
                if x != pa && x != pb {
                    assert(u.nodes[x] == t.nodes[x]);
                    assert(v.nodes[x] == u.nodes[x]);
                }
            }
            assert forall|x: NodeKey| v.nodes.contains_key(x) <==> t.nodes.contains_key(x) by {
                assert(v.has(x) <==> u.has(x));
                assert(u.has(x) <==> t.has(x));
            }
        }
        assert(v == t);
    }
}

/// Nodes that have traded places are still apart.
proof fn lemma_crossed_apart(t: Tree, a: NodeKey, b: NodeKey)
    requires
        t.wf(),
        t.swappable(a, b),
        t.slot_of(a) is Some,
        t.slot_of(b) is Some,
        t.parents[a] != t.parents[b],
    ensures
        !t.crossed(a, b).under(a, b),
        !t.crossed(a, b).under(b, a),
{
    lemma_crossed(t, a, b);
    let u = t.crossed(a, b);
    let pa = t.parents[a];
    let pb = t.parents[b];
    if u.under(a, b) {
        assert(u.under(pb, b));
        lemma_crossed_path(t, a, b, pb, b);
        lemma_parent_not_under_child(t.parents, b);
    }
    if u.under(b, a) {
        assert(u.under(pa, a));
        lemma_crossed_path(t, a, b, pa, a);
        lemma_parent_not_under_child(t.parents, a);
    }
}

/// A way up that does not pass either node is the way it was.
proof fn lemma_crossed_path(t: Tree, a: NodeKey, b: NodeKey, x: NodeKey, top: NodeKey)
    requires
        t.wf(),
        t.swappable(a, b),
        t.slot_of(a) is Some,
        t.slot_of(b) is Some,
        t.parents[a] != t.parents[b],
        top == a || top == b,
        t.crossed(a, b).under(x, top),
        !t.under(x, a) || top == a,
        !t.under(x, b) || top == b,
    ensures
        t.under(x, top),
    decreases crate::tree::depth(t.crossed(a, b).parents, x),
{
    lemma_crossed(t, a, b);
    let u = t.crossed(a, b);
    assert(t.under(a, a) && t.under(b, b));
    if x != top {
        assert(u.parents.contains_key(x));
        lemma_depth(u.parents, x);
        if x == a || x == b {
        } else {
            assert(t.parents.contains_key(x));
            assert(u.parents[x] == t.parents[x]);
            if t.under(t.parents[x], a) {
                assert(t.under(x, a));
            }
            if t.under(t.parents[x], b) {
                assert(t.under(x, b));
            }
            lemma_crossed_path(t, a, b, t.parents[x], top);
        }
    }
}

/// Whether two trees have the same nodes of the same kinds, linked and stacked alike.
pub open spec fn same_frame(t: Tree, u: Tree) -> bool {
    &&& u.parents == t.parents
    &&& u.root == t.root
    &&& u.floating == t.floating
    &&& u.seat == t.seat
    &&& u.next_key == t.next_key
    &&& u.next_floating_id == t.next_floating_id
    &&& forall|x: NodeKey| #[trigger] u.has(x) <==> t.has(x)
    &&& forall|x: NodeKey| #[trigger]
        t.has(x) ==> u.nodes[x].children == t.nodes[x].children && (u.nodes[x].tile is Some
            <==> t.nodes[x].tile is Some) && u.nodes[x].workspace == t.nodes[x].workspace
            && u.nodes[x].layout == t.nodes[x].layout
}

/// Exchanging boxes and shares moves nothing.
#[verifier::spinoff_prover]
pub proof fn lemma_dressed(t: Tree, a: NodeKey, b: NodeKey)
    ensures
        same_frame(t, t.boxes_swapped(a, b)),
        same_frame(t, t.shares_swapped(a, b)),
        same_frame(t, t.boxes_swapped(a, b).shares_swapped(a, b)),
{
    reveal(Tree::boxes_swapped);
    let u = t.boxes_swapped(a, b);
    let v = u.shares_swapped(a, b);
    assert(same_frame(t, u));
    assert(same_frame(u, v)) by {
        lemma_shares_frame(u, a, b);
    }
    lemma_shares_frame(t, a, b);
    assert forall|x: NodeKey| #[trigger] v.has(x) <==> t.has(x) by {
        assert(u.has(x) <==> t.has(x));
    }
    assert forall|x: NodeKey| #[trigger] t.has(x) implies v.nodes[x].children
        == t.nodes[x].children && (v.nodes[x].tile is Some <==> t.nodes[x].tile is Some)
        && v.nodes[x].workspace == t.nodes[x].workspace && v.nodes[x].layout
        == t.nodes[x].layout by {
        assert(u.has(x));
    }
}

proof fn lemma_shares_frame(t: Tree, a: NodeKey, b: NodeKey)
    ensures
        same_frame(t, t.shares_swapped(a, b)),
{
    reveal(Tree::shares_swapped);
}

/// What a frame in common keeps.
pub proof fn lemma_same_frame(t: Tree, u: Tree, k: NodeKey)
    requires
        same_frame(t, u),
    ensures
        u.is_view(k) == t.is_view(k),
        u.is_parent(k) == t.is_parent(k),
        u.kids(k) == t.kids(k),
        u.slot_of(k) == t.slot_of(k),
        u.is_floating(k) == t.is_floating(k),
        u.stack_index(k) == t.stack_index(k),
{
    if t.parents.contains_key(k) {
        let p = t.parents[k];
        assert(u.has(p) <==> t.has(p));
        assert(u.kids(p) == t.kids(p));
    }
    assert(u.has(k) <==> t.has(k));
    if u.is_floating(k) {
        let i = choose|i: int| 0 <= i < u.floating.len() && #[trigger] u.floating[i].key == k;
        assert(t.floating[i].key == k);
    }
    if t.is_floating(k) {
        let i = choose|i: int| 0 <= i < t.floating.len() && #[trigger] t.floating[i].key == k;
        assert(u.floating[i].key == k);
    }
}

/// A floating root trading places with a listed node keeps the tree well-formed.
#[verifier::spinoff_prover]
pub proof fn lemma_boundary_crossed(t: Tree, root: NodeKey, node: NodeKey)
    requires
        t.wf(),
        t.swappable(root, node),
        t.is_floating(root),
        t.slot_of(node) is Some,
    ensures
        0 <= t.stack_index(root) < t.floating.len(),
        t.floating[t.stack_index(root)].key == root,
        t.unlinked(node).wf(),
        t.unlinked(node).floating == t.floating,
        t.unlinked(node).unfloated(t.stack_index(root)).wf(),
        ({
            let i = t.stack_index(root);
            let idx = t.kids(t.parents[node]).index_of(node);
            let u = t.unlinked(node).unfloated(i);
            &&& u.has(root)
            &&& root != u.root
            &&& !u.parents.contains_key(root)
            &&& u.is_parent(t.parents[node])
            &&& !u.under(t.parents[node], root)
            &&& u.linked_at(root, t.parents[node], idx).wf()
            &&& u.linked_at(root, t.parents[node], idx).has(node)
            &&& node != u.root
            &&& !u.linked_at(root, t.parents[node], idx).parents.contains_key(node)
            &&& u.linked_at(root, t.parents[node], idx).floating.len() == t.floating.len() - 1
        }),
        t.boundary_crossed(root, node).wf(),
{
    reveal(Tree::boundary_crossed);
    let i = t.stack_index(root);
    let w = choose|w: int| 0 <= w < t.floating.len() && #[trigger] t.floating[w].key == root;
    assert(t.floating[w].key == root);
    lemma_listed_not_floating(t, node);
    let p = t.parents[node];
    let idx = t.kids(p).index_of(node);
    lemma_unlinked(t, node);
    let a = t.unlinked(node);
    lemma_unfloated(a, i);
    let u = a.unfloated(i);
    assert(t.parents[t.floating[i].key] == t.root);
    assert(!t.under(p, root)) by {
        if t.under(p, root) {
            assert(t.under(node, root));
        }
    }
    if u.under(p, root) {
        lemma_under_remove(a.parents, root, p, root);
        lemma_under_remove(t.parents, node, p, root);
    }
    lemma_linked_at(u, root, p, idx);
    let v = u.linked_at(root, p, idx);
    let entry = FloatingRoot {
        key: node,
        kind: if t.is_view(node) {
            FloatingRootKind::ImplicitWindowGroup
        } else {
            FloatingRootKind::FloatedContainer
        },
        ..t.floating[i]
    };
    lemma_floated(v, entry, i);
}

/// A floating stack naming the same groups, each once, keeps the tree well-formed.
pub proof fn lemma_restacked(t: Tree, floating: Seq<FloatingRoot>)
    requires
        t.wf(),
        forall|k: NodeKey| #[trigger]
            t.is_floating(k) <==> t.with_floating(floating).is_floating(k),
        forall|i: int, j: int|
            0 <= i < floating.len() && 0 <= j < floating.len() && i != j ==> (
            #[trigger] floating[i]).key != (#[trigger] floating[j]).key,
    ensures
        t.with_floating(floating).wf(),
{
    let u = t.with_floating(floating);
    assert forall|i: int| 0 <= i < u.floating.len() implies u.parents.contains_key(
        (#[trigger] u.floating[i]).key,
    ) && u.parents[u.floating[i].key] == u.root && !u.nodes[u.root].children.contains(
        u.floating[i].key,
    ) by {
        let k = u.floating[i].key;
        assert(u.is_floating(k));
        assert(t.is_floating(k));
        let j = choose|j: int| 0 <= j < t.floating.len() && #[trigger] t.floating[j].key == k;
        assert(t.parents.contains_key(t.floating[j].key));
    }
    assert(u.linked());
}

impl ContainerArena {
    fn swap_node_geometries(&mut self, a: NodeKey, b: NodeKey)
        requires
            old(self).wf(),
        ensures
            final(self).wf(),
            final(self)@ == old(self)@.boxes_swapped(a, b),
            final(self)@.windows() == old(self)@.windows(),
            forall|k: NodeKey| #[trigger] final(self)@.loose(k) ==> old(self)@.loose(k),
            old(self)@.mentions_live() ==> final(self)@.mentions_live(),
            final(self)@.root == old(self)@.root,
            forall|k: NodeKey| #[trigger] final(self)@.has(k) <==> old(self)@.has(k),
    {
        reveal(Tree::boxes_swapped);
        let geometry_a = self.node_geometry(a);
        let geometry_b = self.node_geometry(b);
        if let Some(geometry) = geometry_b {
            self.set_node_geometry(a, geometry);
        }
        if let Some(geometry) = geometry_a {
            self.set_node_geometry(b, geometry);
        }
    }

    fn swap_node_fractions(&mut self, a: NodeKey, b: NodeKey)
        requires
            old(self).wf(),
        ensures
            final(self).wf(),
            final(self)@ == old(self)@.shares_swapped(a, b),
            final(self)@.windows() == old(self)@.windows(),
            forall|k: NodeKey| #[trigger] final(self)@.loose(k) ==> old(self)@.loose(k),
            old(self)@.mentions_live() ==> final(self)@.mentions_live(),
            final(self)@.root == old(self)@.root,
            forall|k: NodeKey| #[trigger] final(self)@.has(k) <==> old(self)@.has(k),
    {
        reveal(Tree::shares_swapped);
        let fractions_a = self.node_fractions(a);
        let fractions_b = self.node_fractions(b);
        if let Some(fractions) = fractions_b {
            self.set_node_fractions(a, fractions);
        }
        if let Some(fractions) = fractions_a {
            self.set_node_fractions(b, fractions);
        }
    }

    fn focus_swap_node(&mut self, key: NodeKey)
        requires
            old(self).wf(),
        ensures
            final(self).wf(),
            final(self)@ == old(self)@.refocused(key),
            final(self)@.windows() == old(self)@.windows(),
            forall|k: NodeKey| #[trigger] final(self)@.loose(k) ==> old(self)@.loose(k),
            old(self)@.mentions_live() ==> final(self)@.mentions_live(),
    {
        if self.is_leaf(key) {
            self.focus_node_key(key);
        } else {
            self.select_container(key);
        }
    }

    fn restore_swap_focus(&mut self, a: NodeKey, b: NodeKey, focused: Option<NodeKey>)
        requires
            old(self).wf(),
        ensures
            final(self).wf(),
            final(self)@ == old(self)@.swap_refocused(a, b, focused),
            final(self)@.windows() == old(self)@.windows(),
            forall|k: NodeKey| #[trigger] final(self)@.loose(k) ==> old(self)@.loose(k),
            old(self)@.mentions_live() ==> final(self)@.mentions_live(),
            final(self)@.root == old(self)@.root,
            forall|k: NodeKey| #[trigger] final(self)@.has(k) <==> old(self)@.has(k),
    {
        reveal(Tree::swap_refocused);
        let held = match focused {
            Some(key) => if self.holds_node(key) {
                key
            } else {
                return;
            },
            None => {
                return;
            },
        };
        if held == a && self.parent_is_switcher(b) {
            self.focus_swap_node(b);
        } else if held == b && self.parent_is_switcher(a) {
            self.focus_swap_node(a);
        }
        if self.seat().node() != Some(held) {
            self.focus_swap_node(held);
        }
    }

    fn swap_fullscreen_slot(&mut self, a: NodeKey, b: NodeKey)
        requires
            old(self).wf(),
        ensures
            final(self).wf(),
            final(self)@ == old(self)@.swap_fullscreen(a, b),
            final(self)@.windows() == old(self)@.windows(),
            forall|k: NodeKey| #[trigger] final(self)@.loose(k) ==> old(self)@.loose(k),
            old(self)@.mentions_live() && old(self)@.has(a) && old(self)@.has(b) && a != old(
                self,
            )@.root && b != old(self)@.root ==> final(self)@.mentions_live(),
    {
        reveal(Tree::swap_fullscreen);
        if self.fullscreen_key() == Some(a) {
            self.transfer_fullscreen_to_replacement(a, b);
            self.focus_swap_node(b);
        } else if self.fullscreen_key() == Some(b) {
            self.transfer_fullscreen_to_replacement(b, a);
            self.focus_swap_node(a);
        }
    }

    #[verifier::spinoff_prover]
    fn exchange_slots(&mut self, a: NodeKey, b: NodeKey)
        requires
            old(self).wf(),
            old(self)@.swappable(a, b),
            old(self)@.slot_of(a) is Some,
            old(self)@.slot_of(b) is Some,
        ensures
            final(self).wf(),
            final(self)@ == old(self)@.slots_exchanged(a, b),
            final(self)@.windows() == old(self)@.windows(),
            forall|k: NodeKey| #[trigger] final(self)@.loose(k) ==> old(self)@.loose(k),
            old(self)@.mentions_live() ==> final(self)@.mentions_live(),
            final(self)@.root == old(self)@.root,
            forall|k: NodeKey| #[trigger] final(self)@.has(k) <==> old(self)@.has(k),
    {
        reveal(Tree::slots_exchanged);
        let ghost t = self@;
        let parent_a = match self.parent_of(a) {
            Some(parent) => parent,
            None => {
                return;
            },
        };
        let parent_b = match self.parent_of(b) {
            Some(parent) => parent,
            None => {
                return;
            },
        };
        let idx_a: usize = match self.child_index(parent_a, a) {
            Some(idx) => idx,
            None => {
                return;
            },
        };
        let idx_b: usize = match self.child_index(parent_b, b) {
            Some(idx) => idx,
            None => {
                return;
            },
        };
        proof {
            lemma_slot(t, parent_a, a, idx_a as int);
            lemma_slot(t, parent_b, b, idx_b as int);
        }
        if parent_a == parent_b {
            let mut kids = self.child_keys_of(parent_a);
            proof {
                assert(t.nodes[parent_a].children.no_duplicates());
                lemma_exchanged(t.kids(parent_a), idx_a as int, idx_b as int);
                lemma_reordered(
                    t,
                    parent_a,
                    t.kids(parent_a).update(idx_a as int, b).update(idx_b as int, a),
                );
            }
            kids.set(idx_a, b);
            kids.set(idx_b, a);
            self.set_children(parent_a, kids);
            return;
        }
        proof {
            lemma_crossed(t, a, b);
        }
        self.detach_child(a);
        self.detach_child(b);
        self.attach_child(b, parent_a, idx_a);
        self.attach_child(a, parent_b, idx_b);
    }

    /// Swaps two nodes that stand in child lists. Answers whether they could be: not a node
    /// with itself, nor with one above or below it, nor one that stands in no list.
    #[verifier::spinoff_prover]
    pub fn swap_nodes(&mut self, a: NodeKey, b: NodeKey) -> (r: bool)
        requires
            old(self).wf(),
        ensures
            final(self).wf(),
            (final(self)@, r) == old(self)@.swapped(a, b),
            final(self)@.windows() == old(self)@.windows(),
            forall|k: NodeKey| #[trigger] final(self)@.loose(k) ==> old(self)@.loose(k),
            old(self)@.mentions_live() ==> final(self)@.mentions_live(),
    {
        let ghost t = self@;
        if a == b || !self.holds_node(a) || !self.holds_node(b) || self.is_descendant(a, b)
            || self.is_descendant(b, a) {
            return false;
        }
        if !self.has_slot(a) || !self.has_slot(b) {
            return false;
        }
        let focused = self.seat().node();
        self.swap_node_geometries(a, b);
        self.swap_node_fractions(a, b);
        proof {
            lemma_dressed(t, a, b);
            lemma_same_frame(t, self@, a);
            lemma_same_frame(t, self@, b);
        }
        self.exchange_slots(a, b);
        self.restore_swap_focus(a, b, focused);
        self.swap_fullscreen_slot(a, b);
        true
    }

    /// Whether a node stands in a child list.
    fn has_slot(&self, key: NodeKey) -> (r: bool)
        requires
            self.wf(),
        ensures
            r == self@.slot_of(key) is Some,
    {
        match self.parent_of(key) {
            Some(parent) => self.child_index(parent, key).is_some(),
            None => false,
        }
    }

    #[verifier::spinoff_prover]
    fn cross_stack(&mut self, a: NodeKey, b: NodeKey)
        requires
            old(self).wf(),
            a != b,
            old(self)@.is_floating(a),
            old(self)@.is_floating(b),
        ensures
            final(self).wf(),
            final(self)@ == old(self)@.stack_crossed(a, b),
            final(self)@.windows() == old(self)@.windows(),
            forall|k: NodeKey| #[trigger] final(self)@.loose(k) ==> old(self)@.loose(k),
            old(self)@.mentions_live() ==> final(self)@.mentions_live(),
            final(self)@.root == old(self)@.root,
            forall|k: NodeKey| #[trigger] final(self)@.has(k) <==> old(self)@.has(k),
    {
        reveal(Tree::stack_crossed);
        reveal(Tree::mentions_live);
        let ghost t = self@;
        let i: usize = match self.floating_root_index(a) {
            Some(i) => i,
            None => {
                return;
            },
        };
        let j: usize = match self.floating_root_index(b) {
            Some(j) => j,
            None => {
                return;
            },
        };
        proof {
            lemma_stack_index(t, a, i as int);
            lemma_stack_index(t, b, j as int);
        }
        let first = self.floating()[i];
        let second = self.floating()[j];
        let floating = self.floating_mut();
        floating.set(
            i,
            FloatingRoot {
                id: second.id,
                key: second.key,
                kind: second.kind,
                geometry: first.geometry,
            },
        );
        floating.set(
            j,
            FloatingRoot {
                id: first.id,
                key: first.key,
                kind: first.kind,
                geometry: second.geometry,
            },
        );
        proof {
            let u = t.stack_crossed(a, b);
            assert(self@ == u);
            assert forall|k: NodeKey| #[trigger] t.is_floating(k) <==> u.is_floating(k) by {
                if t.is_floating(k) {
                    let n = choose|n: int|
                        0 <= n < t.floating.len() && #[trigger] t.floating[n].key == k;
                    if n == i {
                        assert(u.floating[j as int].key == k);
                    } else if n == j {
                        assert(u.floating[i as int].key == k);
                    } else {
                        assert(u.floating[n].key == k);
                    }
                }
                if u.is_floating(k) {
                    let n = choose|n: int|
                        0 <= n < u.floating.len() && #[trigger] u.floating[n].key == k;
                    if n == i {
                        assert(t.floating[j as int].key == k);
                    } else if n == j {
                        assert(t.floating[i as int].key == k);
                    } else {
                        assert(t.floating[n].key == k);
                    }
                }
            }
            assert forall|x: int, y: int|
                0 <= x < u.floating.len() && 0 <= y < u.floating.len() && x != y implies (
            #[trigger] u.floating[x]).key != (#[trigger] u.floating[y]).key by {
                let back = |n: int|
                    if n == i {
                        j as int
                    } else if n == j {
                        i as int
                    } else {
                        n
                    };
                assert(u.floating[x].key == t.floating[back(x)].key);
                assert(u.floating[y].key == t.floating[back(y)].key);
            }
            lemma_restacked(t, u.floating);
        }
        proof {
            crate::windows::lemma_same_windows(old(self)@, self@);
        }
    }

    #[verifier::spinoff_prover]
    fn cross_boundary(&mut self, root: NodeKey, node: NodeKey)
        requires
            old(self).wf(),
            old(self)@.swappable(root, node),
            old(self)@.is_floating(root),
            old(self)@.slot_of(node) is Some,
        ensures
            final(self).wf(),
            final(self)@ == old(self)@.boundary_crossed(root, node),
            final(self)@.windows() == old(self)@.windows(),
            forall|k: NodeKey| #[trigger] final(self)@.loose(k) ==> old(self)@.loose(k),
            old(self)@.mentions_live() ==> final(self)@.mentions_live(),
            final(self)@.root == old(self)@.root,
            forall|k: NodeKey| #[trigger] final(self)@.has(k) <==> old(self)@.has(k),
    {
        reveal(Tree::boundary_crossed);
        let ghost t = self@;
        proof {
            lemma_boundary_crossed(t, root, node);
        }
        let parent = match self.parent_of(node) {
            Some(parent) => parent,
            None => {
                return;
            },
        };
        let idx: usize = match self.child_index(parent, node) {
            Some(idx) => idx,
            None => {
                return;
            },
        };
        let stack_idx: usize = match self.floating_root_index(root) {
            Some(stack_idx) => stack_idx,
            None => {
                return;
            },
        };
        proof {
            lemma_slot(t, parent, node, idx as int);
            lemma_stack_index(t, root, stack_idx as int);
            lemma_listed_not_floating(t, node);
        }
        let kind = if self.is_leaf(node) {
            FloatingRootKind::ImplicitWindowGroup
        } else {
            FloatingRootKind::FloatedContainer
        };
        self.detach_child(node);
        let entry = self.pop_floating(stack_idx);
        self.attach_child(root, parent, idx);
        self.push_floating(
            FloatingRoot { id: entry.id, key: node, kind, geometry: entry.geometry },
            stack_idx,
        );
    }

    /// Swaps two roots of floating groups.
    #[verifier::spinoff_prover]
    fn swap_groups(&mut self, a: NodeKey, b: NodeKey)
        requires
            old(self).wf(),
            old(self)@.swappable(a, b),
            old(self)@.is_floating(a),
            old(self)@.is_floating(b),
        ensures
            final(self).wf(),
            final(self)@ == old(self)@.groups_swapped(a, b),
            final(self)@.windows() == old(self)@.windows(),
            forall|k: NodeKey| #[trigger] final(self)@.loose(k) ==> old(self)@.loose(k),
            old(self)@.mentions_live() ==> final(self)@.mentions_live(),
    {
        reveal(Tree::groups_swapped);
        let ghost t = self@;
        let focused = self.seat().node();
        self.swap_node_geometries(a, b);
        proof {
            lemma_dressed(t, a, b);
            lemma_same_frame(t, self@, a);
            lemma_same_frame(t, self@, b);
        }
        assert(t.parents.contains_key(a) && t.parents.contains_key(b));
        self.cross_stack(a, b);
        self.swap_node_fractions(a, b);
        self.restore_swap_focus(a, b, focused);
        self.swap_fullscreen_slot(a, b);
    }

    /// Swaps the root of a floating group with a node that stands in a child list.
    #[verifier::spinoff_prover]
    fn swap_group_with(&mut self, root: NodeKey, node: NodeKey)
        requires
            old(self).wf(),
            old(self)@.swappable(root, node),
            old(self)@.is_floating(root),
            old(self)@.slot_of(node) is Some,
        ensures
            final(self).wf(),
            final(self)@ == old(self)@.group_swapped_with(root, node),
            final(self)@.windows() == old(self)@.windows(),
            forall|k: NodeKey| #[trigger] final(self)@.loose(k) ==> old(self)@.loose(k),
            old(self)@.mentions_live() ==> final(self)@.mentions_live(),
    {
        reveal(Tree::group_swapped_with);
        let ghost t = self@;
        let focused = self.seat().node();
        self.swap_node_geometries(root, node);
        self.swap_node_fractions(root, node);
        proof {
            lemma_dressed(t, root, node);
            lemma_same_frame(t, self@, root);
            lemma_same_frame(t, self@, node);
        }
        assert(t.parents.contains_key(root) && t.parents.contains_key(node));
        self.cross_boundary(root, node);
        self.restore_swap_focus(root, node, focused);
        self.swap_fullscreen_slot(root, node);
        self.readdress_leaf_layouts();
    }

    /// Swaps two nodes when at least one of them is the root of a floating group. Answers
    /// whether they could be.
    pub fn swap_nodes_at_floating_boundary(&mut self, a: NodeKey, b: NodeKey) -> (r: bool)
        requires
            old(self).wf(),
        ensures
            final(self).wf(),
            (final(self)@, r) == old(self)@.swapped_at_boundary(a, b),
            final(self)@.windows() == old(self)@.windows(),
            forall|k: NodeKey| #[trigger] final(self)@.loose(k) ==> old(self)@.loose(k),
            old(self)@.mentions_live() ==> final(self)@.mentions_live(),
    {
        if a == b || !self.holds_node(a) || !self.holds_node(b) || self.is_descendant(a, b)
            || self.is_descendant(b, a) {
            return false;
        }
        let a_root = self.is_floating_root(a);
        let b_root = self.is_floating_root(b);
        if a_root && b_root {
            self.swap_groups(a, b);
            return true;
        }
        if !a_root && !b_root {
            return false;
        }
        let (root, node) = if a_root {
            (a, b)
        } else {
            (b, a)
        };
        if !self.has_slot(node) {
            return false;
        }
        self.swap_group_with(root, node);
        true
    }
}

/// Where a group is on the stack.
pub proof fn lemma_stack_index(t: Tree, k: NodeKey, i: int)
    requires
        t.wf(),
        0 <= i < t.floating.len(),
        t.floating[i].key == k,
    ensures
        t.is_floating(k),
        t.stack_index(k) == i,
{
    assert(t.is_floating(k));
    let j = t.stack_index(k);
    assert(t.floating[j].key == t.floating[i].key);
}

} // verus!
