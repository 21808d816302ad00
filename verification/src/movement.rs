//! Moving a node in a direction.
//!
//! The node climbs until an ancestor sits in a parent laid out along the direction. If there is
//! a neighbour on that side the node moves in with it; if there is not, it is put beside that
//! ancestor. The parent it left is destroyed when that empties it, and redundant nesting in the
//! branch is squashed.

use crate::arena::ContainerArena;
use crate::axis::{Direction, Layout, NodeKey};
use crate::links::lemma_under_remove;
use crate::node::Node;
use crate::tree::{
    acyclic, depth, lemma_active, lemma_depth, lemma_parent_not_under_child, lemma_under_chain,
    lemma_under_depth, lemma_under_trans, lemma_unlinked, room, under, Tree,
};
use crate::walk::lemma_slot;
use vstd::prelude::*;

verus! {

/// Where a move takes a node.
pub enum Route {
    /// Nowhere.
    Stuck,
    /// In with this neighbour.
    Into(NodeKey),
    /// Beside this ancestor.
    Beside(NodeKey),
    /// Beside everything else under this branch root, which has to turn first.
    Turn(NodeKey),
}

impl Tree {
    /// The parent of a node inside its branch; a floating root has none.
    pub open spec fn inner_parent(self, k: NodeKey) -> Option<NodeKey> {
        if self.is_floating(k) {
            None
        } else {
            self.parent(k)
        }
    }

    /// Where a move of `node` leads, read from `current`, the node or an ancestor of it.
    pub open spec fn route(self, node: NodeKey, current: NodeKey, direction: Direction) -> Route
        decreases depth(self.parents, current),
        when acyclic(self.parents)
    {
        proof {
            if self.parents.contains_key(current) {
                lemma_depth(self.parents, current);
            }
        }
        if self.inner_parent(current) is None || !self.is_parent(self.parents[current]) {
            Route::Stuck
        } else {
            let p = self.parents[current];
            if !self.nodes[p].layout.parallel(direction) {
                if self.inner_parent(p) is Some {
                    self.route(node, p, direction)
                } else {
                    Route::Turn(p)
                }
            } else {
                match self.slot_of(current) {
                    None => Route::Stuck,
                    Some((_, idx)) => match direction.step(idx, self.kids(p).len() as int) {
                        Some(n) => Route::Into(self.kids(p)[n]),
                        None => if current != node {
                            Route::Beside(current)
                        } else if self.inner_parent(p) is None {
                            Route::Stuck
                        } else {
                            self.route(node, p, direction)
                        },
                    },
                }
            }
        }
    }

    /// A tiled node taken out of its slot and put into another list.
    pub open spec fn reparented(self, node: NodeKey, p: NodeKey, idx: int) -> Tree {
        self.unlinked(node).linked_at(node, p, idx)
    }

    /// `node` put beside its ancestor `anc`, on the side the direction points to. The node
    /// keeps its shares and the ancestor loses its own.
    #[verifier::opaque]
    pub open spec fn promoted(self, node: NodeKey, anc: NodeKey, direction: Direction) -> Tree {
        let from = self.parents[node];
        let p = self.parents[anc];
        let idx = self.kids(p).index_of(anc);
        let at = if direction.leading() {
            idx
        } else {
            idx + 1
        };
        let t = self.reparented(node, p, at).unset(anc);
        t.reaped(from).squashed(t.branch(p))
    }

    /// Two children of `p` with their slots exchanged.
    pub open spec fn slots_swapped(self, p: NodeKey, a: NodeKey, b: NodeKey) -> Tree {
        let kids = self.nodes[p].children;
        self.with_children(p, kids.update(kids.index_of(a), b).update(kids.index_of(b), a))
    }

    /// `node` moved in with `dest` from a direction: exchanged with a window beside it, put
    /// next to a window elsewhere, put at the near end of a container laid out along the
    /// direction, or moved in with the active child of one laid out across it.
    #[verifier::opaque]
    pub open spec fn moved_into(self, node: NodeKey, dest: NodeKey, direction: Direction) -> Tree
        decreases room(self.parents, dest),
        when self.wf()
    {
        proof {
            lemma_active(self, dest);
            if self.active(dest) is Some {
                lemma_depth(self.parents, self.active(dest)->0);
            }
        }
        if self.is_view(dest) {
            match self.slot_of(dest) {
                None => self,
                Some((p, idx)) => if self.parent(node) == Some(p) {
                    if self.slot_of(node) is Some {
                        self.slots_swapped(p, node, dest)
                    } else {
                        self
                    }
                } else {
                    let at = if direction.leading() {
                        idx + 1
                    } else {
                        idx
                    };
                    let branch = self.branch(p);
                    self.reparented(node, p, at).unset(node).squashed(branch)
                },
            }
        } else if self.is_parent(dest) && self.nodes[dest].layout.parallel(direction) {
            let at = if direction.leading() {
                self.kids(dest).len() as int
            } else {
                0
            };
            let branch = self.branch(dest);
            self.reparented(node, dest, at).unset(node).squashed(branch)
        } else if self.is_parent(dest) {
            match self.active(dest) {
                Some(c) => self.moved_into(node, c, direction),
                None => self,
            }
        } else {
            self
        }
    }

    /// Whether a node is the only child of a container standing directly in its branch root.
    pub open spec fn is_lone_at_top(self, node: NodeKey) -> bool {
        self.parent(node) matches Some(p) && self.inner_parent(p) matches Some(g)
            && self.inner_parent(g) is None && self.kids(p).len() == 1
    }

    /// A directional move of a node, and whether it went anywhere.
    pub open spec fn moved(self, node: NodeKey, direction: Direction) -> (Tree, bool) {
        match self.route(node, node, direction) {
            Route::Stuck => (self, false),
            Route::Into(dest) => (self.moved_into(node, dest, direction), true),
            Route::Beside(anc) => if self.is_lone_at_top(node) {
                (self, false)
            } else {
                (self.promoted(node, anc, direction), true)
            },
            Route::Turn(p) => {
                let w = NodeKey { id: self.next_key };
                let t = self.gathered(p, w, self.nodes[p].layout, direction.along()).unset(node);
                (t.promoted(node, w, direction), true)
            },
        }
    }

    /// A move command on `target`: the move, the former parent destroyed when it is empty, the
    /// keyboard left on the moved window without raising it, and a moved container left
    /// selected. Branch roots do not move.
    pub open spec fn move_commanded(self, direction: Direction, target: NodeKey) -> (Tree, bool) {
        if target == self.root || !self.has(target) || self.inner_parent(target) is None {
            (self, false)
        } else {
            let leaf = self.leaf_under(target);
            let (t, done) = self.moved(target, direction);
            if !done {
                (t, false)
            } else {
                let a = t.reaped(self.parents[target]);
                let b = match leaf {
                    Some(l) if a.is_view(l) => a.with_seat(a.seat.with_leaf(Some(l))),
                    _ => a,
                };
                if !self.is_view(target) && b.has(target) {
                    (b.with_seat(b.seat.with_selected(Some(target))), true)
                } else {
                    (b, true)
                }
            }
        }
    }
}

/// What can be said of the route: every key in it is linked as the move needs it.
pub proof fn lemma_route(t: Tree, node: NodeKey, current: NodeKey, direction: Direction)
    requires
        t.wf(),
        t.under(node, current),
        t.has(node),
    ensures
        match t.route(node, current, direction) {
            Route::Stuck => true,
            Route::Into(dest) => t.parents.contains_key(dest) && !t.under(dest, node)
                && !t.under(node, dest) && !t.is_floating(node),
            Route::Beside(anc) => t.parents.contains_key(anc) && t.under(node, anc) && anc != node
                && t.slot_of(anc) is Some && !t.is_floating(node),
            Route::Turn(p) => t.is_parent(p) && t.kids(p).len() > 0 && t.under(node, p) && node
                != p && (p == t.root || t.is_floating(p) || !t.parents.contains_key(p))
                && !t.is_floating(node),
        },
    decreases depth(t.parents, current),
{
    if t.inner_parent(current) is Some && t.is_parent(t.parents[current]) {
        let p = t.parents[current];
        lemma_depth(t.parents, current);
        assert(t.under(current, p)) by {
            assert(t.under(p, p));
        }
        lemma_under_trans(t.parents, node, current, p);
        lemma_under_depth(t.parents, node, p);
        lemma_under_depth(t.parents, node, current);
        assert(node != p);
        assert(!t.is_floating(node)) by {
            if t.is_floating(node) {
                let i = choose|i: int|
                    0 <= i < t.floating.len() && #[trigger] t.floating[i].key == node;
                assert(t.parents[t.floating[i].key] == t.root);
                if node != current {
                    assert(t.under(t.root, current));
                    assert(t.root == current);
                }
            }
        }
        if !t.nodes[p].layout.parallel(direction) {
            if t.inner_parent(p) is Some {
                lemma_route(t, node, p, direction);
            } else {
                assert(t.nodes[p].children.contains(current));
                assert(t.nodes[p].children.len() > 0);
            }
        } else if t.slot_of(current) is Some {
            let kids = t.kids(p);
            let idx = kids.index_of(current);
            let w = choose|i: int| 0 <= i < kids.len() && kids[i] == current;
            lemma_slot(t, p, current, w);
            match direction.step(idx, kids.len() as int) {
                Some(n) => {
                    let dest = kids[n];
                    lemma_slot(t, p, dest, n);
                    assert(dest != current) by {
                        assert(t.nodes[p].children.no_duplicates());
                    }
                    lemma_depth(t.parents, dest);
                    if t.under(node, dest) {
                        lemma_under_chain(t.parents, node, current, dest);
                        if t.under(current, dest) {
                            assert(t.under(p, dest));
                            lemma_parent_not_under_child(t.parents, dest);
                        } else {
                            assert(t.under(p, current));
                            lemma_parent_not_under_child(t.parents, current);
                        }
                    }
                    if t.under(dest, node) {
                        assert(dest != node) by {
                            assert(t.under(node, node));
                        }
                        assert(t.under(p, node));
                        lemma_under_depth(t.parents, p, node);
                    }
                },
                None => {
                    if current == node && t.inner_parent(p) is Some {
                        lemma_route(t, node, p, direction);
                    }
                },
            }
        }
    }
}

/// A list with the same members keeps the tree well-formed.
pub proof fn lemma_reordered(t: Tree, p: NodeKey, list: Seq<NodeKey>)
    requires
        t.wf(),
        t.has(p),
        list.no_duplicates(),
        forall|x: NodeKey| #[trigger] list.contains(x) <==> t.nodes[p].children.contains(x),
    ensures
        t.with_children(p, list).wf(),
{
    let u = t.with_children(p, list);
    let kids = t.nodes[p].children;
    assert forall|q: NodeKey, i: int|
        #![trigger u.nodes[q].children[i]]
        u.has(q) && 0 <= i < u.nodes[q].children.len() implies u.parents.contains_key(
        u.nodes[q].children[i],
    ) && u.parents[u.nodes[q].children[i]] == q by {
        let x = u.nodes[q].children[i];
        if q == p {
            assert(list.contains(x));
            let j = choose|j: int| 0 <= j < kids.len() && kids[j] == x;
            assert(t.parents[t.nodes[p].children[j]] == p);
        } else {
            assert(t.parents[t.nodes[q].children[i]] == q);
        }
    }
    assert forall|x: NodeKey| #[trigger] u.parents.contains_key(x) implies u.has(x) && u.has(
        u.parents[x],
    ) && (u.nodes[u.parents[x]].children.contains(x) || (u.is_floating(x) && u.parents[x]
        == u.root)) by {
        assert(t.parents.contains_key(x));
        if t.is_floating(x) {
            assert(u.is_floating(x));
        }
        if t.parents[x] == p && kids.contains(x) {
            assert(list.contains(x));
        }
    }
    assert forall|q: NodeKey|
        #![trigger u.nodes[q].children]
        u.has(q) implies u.nodes[q].children.no_duplicates() by {
        assert(t.nodes[q].children.no_duplicates());
    }
    assert forall|i: int| 0 <= i < u.floating.len() implies u.parents.contains_key(
        (#[trigger] u.floating[i]).key,
    ) && u.parents[u.floating[i].key] == u.root && !u.nodes[u.root].children.contains(
        u.floating[i].key,
    ) by {
        assert(t.floating[i] == u.floating[i]);
        if u.root == p {
            assert(list.contains(u.floating[i].key) <==> kids.contains(u.floating[i].key));
        }
    }
    assert(u.rooted()) by {
        if t.nodes[p].tile is Some {
            assert(list.len() == 0) by {
                if list.len() > 0 {
                    assert(list.contains(list[0]));
                    assert(kids.contains(list[0]));
                }
            }
        }
    }
    assert(u.seated()) by {
        assert forall|x: NodeKey| #[trigger] u.seat.order.contains(x) <==> u.has(x) by {
            assert(t.seat.order.contains(x) <==> t.has(x));
        }
    }
}

/// Exchanging two places of a list keeps its members.
pub proof fn lemma_exchanged(kids: Seq<NodeKey>, i: int, j: int)
    requires
        kids.no_duplicates(),
        0 <= i < kids.len(),
        0 <= j < kids.len(),
    ensures
        kids.update(i, kids[j]).update(j, kids[i]).no_duplicates(),
        forall|x: NodeKey| #[trigger]
            kids.update(i, kids[j]).update(j, kids[i]).contains(x) <==> kids.contains(x),
{
    let out = kids.update(i, kids[j]).update(j, kids[i]);
    let back = |n: int|
        if n == i {
            j
        } else if n == j {
            i
        } else {
            n
        };
    assert forall|n: int| 0 <= n < out.len() implies out[n] == #[trigger] kids[back(n)] by {}
    assert forall|a: int, b: int| 0 <= a < out.len() && 0 <= b < out.len() && a != b implies out[a]
        != out[b] by {
        assert(out[a] == kids[back(a)]);
        assert(out[b] == kids[back(b)]);
    }
    assert forall|x: NodeKey| #[trigger] out.contains(x) <==> kids.contains(x) by {
        if out.contains(x) {
            let n = choose|n: int| 0 <= n < out.len() && out[n] == x;
            assert(kids[back(n)] == x);
        }
        if kids.contains(x) {
            let n = choose|n: int| 0 <= n < kids.len() && kids[n] == x;
            assert(out[back(n)] == kids[n]);
        }
    }
}

impl ContainerArena {
    /// The parent of a node inside its branch; a floating root has none.
    pub(crate) fn inner_parent_of(&self, key: NodeKey) -> (r: Option<NodeKey>)
        ensures
            r == self@.inner_parent(key),
    {
        if self.is_floating_root(key) {
            None
        } else {
            self.parent_of(key)
        }
    }

    fn find_route(&self, node_key: NodeKey, direction: Direction) -> (r: Route)
        requires
            self.wf(),
        ensures
            r == self@.route(node_key, node_key, direction),
    {
        let mut current = node_key;
        loop
            invariant
                self.wf(),
                self@.route(node_key, node_key, direction) == self@.route(
                    node_key,
                    current,
                    direction,
                ),
            decreases depth(self@.parents, current),
        {
            let parent_key = match self.inner_parent_of(current) {
                Some(parent_key) => parent_key,
                None => {
                    return Route::Stuck;
                },
            };
            proof {
                lemma_depth(self@.parents, current);
            }
            let parent = match self.get_container(parent_key) {
                Some(parent) => parent,
                None => {
                    return Route::Stuck;
                },
            };
            if !parent.layout().is_parallel_to(direction) {
                if self.inner_parent_of(parent_key).is_none() {
                    return Route::Turn(parent_key);
                }
                current = parent_key;
                continue ;
            }
            let idx: usize = match self.child_index(parent_key, current) {
                Some(idx) => idx,
                None => {
                    return Route::Stuck;
                },
            };
            proof {
                lemma_slot(self@, parent_key, current, idx as int);
            }
            let count: usize = parent.child_count();
            if let Some(next) = direction.sibling_index(idx, count) {
                return match parent.child_key(next) {
                    Some(target) => Route::Into(target),
                    None => Route::Stuck,
                };
            }
            if current != node_key {
                return Route::Beside(current);
            }
            if self.inner_parent_of(parent_key).is_none() {
                return Route::Stuck;
            }
            current = parent_key;
        }
    }

    /// Takes a tiled node out of its slot and puts it into another list outside its subtree.
    fn reparent(&mut self, node_key: NodeKey, parent_key: NodeKey, insert_at: usize)
        requires
            old(self).wf(),
            old(self)@.parents.contains_key(node_key),
            !old(self)@.is_floating(node_key),
            old(self)@.is_parent(parent_key),
            !old(self)@.under(parent_key, node_key),
        ensures
            final(self).wf(),
            final(self)@ == old(self)@.reparented(node_key, parent_key, insert_at as int),
            final(self)@.windows() == old(self)@.windows(),
            forall|k: NodeKey| #[trigger] final(self)@.loose(k) ==> old(self)@.loose(k),
            old(self)@.mentions_live() ==> final(self)@.mentions_live(),
    {
        proof {
            lemma_unlinked(self@, node_key);
            if under(self@.parents.remove(node_key), parent_key, node_key) {
                lemma_under_remove(self@.parents, node_key, parent_key, node_key);
            }
            assert(node_key != self@.root);
        }
        self.detach_child(node_key);
        self.attach_child(node_key, parent_key, insert_at);
    }

    fn promote(&mut self, node_key: NodeKey, ancestor_key: NodeKey, direction: Direction)
        requires
            old(self).wf(),
            old(self)@.parents.contains_key(node_key),
            !old(self)@.is_floating(node_key),
            old(self)@.slot_of(ancestor_key) is Some,
            !old(self)@.under(old(self)@.parents[ancestor_key], node_key),
        ensures
            final(self).wf(),
            final(self)@ == old(self)@.promoted(node_key, ancestor_key, direction),
            final(self)@.windows() == old(self)@.windows(),
            forall|k: NodeKey| #[trigger] final(self)@.loose(k) ==> old(self)@.loose(k),
            old(self)@.mentions_live() ==> final(self)@.mentions_live(),
    {
        reveal(Tree::promoted);
        let ghost t = self@;
        let from = match self.parent_of(node_key) {
            Some(from) => from,
            None => {
                return;
            },
        };
        let parent_key = match self.parent_of(ancestor_key) {
            Some(parent_key) => parent_key,
            None => {
                return;
            },
        };
        let idx: usize = match self.child_index(parent_key, ancestor_key) {
            Some(idx) => idx,
            None => {
                return;
            },
        };
        proof {
            lemma_slot(t, parent_key, ancestor_key, idx as int);
        }
        let count: usize = self.child_count_of(parent_key);
        assert(idx < count);
        let at: usize = if direction.is_leading() {
            idx
        } else {
            idx + 1
        };
        self.reparent(node_key, parent_key, at);
        self.unset_node_fractions(ancestor_key);
        let branch = self.branch_root(parent_key);
        self.reap_empty(from);
        self.squash_branch(branch);
    }

    fn swap_slots(&mut self, parent_key: NodeKey, a: usize, b: usize)
        requires
            old(self).wf(),
            a < old(self)@.kids(parent_key).len(),
            b < old(self)@.kids(parent_key).len(),
        ensures
            final(self).wf(),
            final(self)@ == old(self)@.slots_swapped(
                parent_key,
                old(self)@.kids(parent_key)[a as int],
                old(self)@.kids(parent_key)[b as int],
            ),
            final(self)@.windows() == old(self)@.windows(),
            forall|k: NodeKey| #[trigger] final(self)@.loose(k) ==> old(self)@.loose(k),
            old(self)@.mentions_live() ==> final(self)@.mentions_live(),
    {
        let ghost t = self@;
        let mut kids: Vec<NodeKey> = Vec::new();
        match self.get_container(parent_key) {
            Some(container) => {
                let list = &container.children;
                let mut i: usize = 0;
                while i < list.len()
                    invariant
                        i <= list@.len(),
                        kids@ == list@.take(i as int),
                    decreases list@.len() - i,
                {
                    kids.push(list[i]);
                    assert(list@.take(i as int).push(list@[i as int]) =~= list@.take(
                        i as int + 1,
                    ));
                    i = i + 1;
                }
                assert(list@.take(i as int) =~= list@);
            },
            None => {
                return;
            },
        }
        let ghost before = kids@;
        let first = kids[a];
        let second = kids[b];
        kids.set(a, second);
        kids.set(b, first);
        proof {
            assert(t.nodes[parent_key].children.no_duplicates());
            lemma_exchanged(before, a as int, b as int);
            lemma_slot(t, parent_key, first, a as int);
            lemma_slot(t, parent_key, second, b as int);
            lemma_reordered(t, parent_key, kids@);
        }
        self.set_children(parent_key, kids);
    }

    /// Moves a node in with a neighbour that is neither above nor below it.
    fn move_into_from_direction(
        &mut self,
        node_key: NodeKey,
        destination_key: NodeKey,
        direction: Direction,
    )
        requires
            old(self).wf(),
            old(self)@.parents.contains_key(node_key),
            !old(self)@.is_floating(node_key),
            !old(self)@.under(node_key, destination_key),
            !old(self)@.under(destination_key, node_key),
        ensures
            final(self).wf(),
            final(self)@ == old(self)@.moved_into(node_key, destination_key, direction),
            final(self)@.windows() == old(self)@.windows(),
            forall|k: NodeKey| #[trigger] final(self)@.loose(k) ==> old(self)@.loose(k),
            old(self)@.mentions_live() ==> final(self)@.mentions_live(),
        decreases room(old(self)@.parents, destination_key),
    {
        reveal(Tree::moved_into);
        let ghost t = self@;
        if self.is_leaf(destination_key) {
            let parent_key = match self.parent_of(destination_key) {
                Some(parent_key) => parent_key,
                None => {
                    return;
                },
            };
            let idx: usize = match self.child_index(parent_key, destination_key) {
                Some(idx) => idx,
                None => {
                    return;
                },
            };
            proof {
                lemma_slot(t, parent_key, destination_key, idx as int);
            }
            if self.parent_of(node_key) == Some(parent_key) {
                if let Some(node_idx) = self.child_index(parent_key, node_key) {
                    proof {
                        lemma_slot(t, parent_key, node_key, node_idx as int);
                    }
                    self.swap_slots(parent_key, node_idx, idx);
                }
                return;
            }
            let count: usize = self.child_count_of(parent_key);
            assert(idx < count);
            let at: usize = if direction.is_leading() {
                idx + 1
            } else {
                idx
            };
            let branch = self.branch_root(parent_key);
            self.reparent(node_key, parent_key, at);
            self.unset_node_fractions(node_key);
            self.squash_branch(branch);
            return;
        }
        match self.get_container(destination_key) {
            Some(destination) => {
                if destination.layout().is_parallel_to(direction) {
                    let at: usize = if direction.is_leading() {
                        destination.child_count()
                    } else {
                        0
                    };
                    let branch = self.branch_root(destination_key);
                    self.reparent(node_key, destination_key, at);
                    self.unset_node_fractions(node_key);
                    self.squash_branch(branch);
                    return;
                }
            },
            None => {
                return;
            },
        }
        proof {
            lemma_active(t, destination_key);
        }
        match self.active_child(destination_key) {
            Some(child_key) => {
                proof {
                    lemma_depth(t.parents, child_key);
                    assert(t.under(child_key, destination_key)) by {
                        assert(t.under(destination_key, destination_key));
                    }
                    if t.under(node_key, child_key) {
                        lemma_under_trans(t.parents, node_key, child_key, destination_key);
                    }
                    if t.under(child_key, node_key) {
                        assert(child_key != node_key);
                    }
                }
                self.move_into_from_direction(node_key, child_key, direction);
            },
            None => {},
        }
    }

    #[verifier::spinoff_prover]
    fn move_node(&mut self, node_key: NodeKey, direction: Direction) -> (r: bool)
        requires
            old(self).wf(),
            old(self)@.next_key < u64::MAX,
            old(self)@.inner_parent(node_key) is Some,
        ensures
            final(self).wf(),
            (final(self)@, r) == old(self)@.moved(node_key, direction),
            final(self)@.windows() == old(self)@.windows(),
            forall|k: NodeKey| #[trigger] final(self)@.loose(k) ==> old(self)@.loose(k),
            old(self)@.mentions_live() ==> final(self)@.mentions_live(),
    {
        let ghost t = self@;
        proof {
            assert(t.parents.contains_key(node_key));
            assert(t.under(node_key, node_key));
            lemma_route(t, node_key, node_key, direction);
        }
        match self.find_route(node_key, direction) {
            Route::Stuck => false,
            Route::Into(dest) => {
                self.move_into_from_direction(node_key, dest, direction);
                true
            },
            Route::Beside(ancestor_key) => {
                let lone = match self.parent_of(node_key) {
                    Some(parent_key) => match self.inner_parent_of(parent_key) {
                        Some(grandparent) => self.inner_parent_of(grandparent).is_none()
                            && self.child_count_of(parent_key) == 1,
                        None => false,
                    },
                    None => false,
                };
                if lone {
                    return false;
                }
                proof {
                    lemma_depth(t.parents, ancestor_key);
                    lemma_under_depth(t.parents, node_key, ancestor_key);
                    if t.under(t.parents[ancestor_key], node_key) {
                        lemma_under_depth(t.parents, t.parents[ancestor_key], node_key);
                    }
                }
                self.promote(node_key, ancestor_key, direction);
                true
            },
            Route::Turn(parent_key) => {
                let layout = match self.get_container(parent_key) {
                    Some(parent) => parent.layout(),
                    None => {
                        return false;
                    },
                };
                let wrapper_key = match self.wrap_branch_children(
                    parent_key,
                    layout,
                    direction.split_layout(),
                ) {
                    Some(wrapper_key) => wrapper_key,
                    None => {
                        return false;
                    },
                };
                let ghost a = self@;
                proof {
                    lemma_gathered(t, parent_key, wrapper_key, layout, direction.along());
                }
                self.unset_node_fractions(node_key);
                proof {
                    let b = self@;
                    assert(b.parents == a.parents);
                    assert(b.nodes[parent_key].children == a.nodes[parent_key].children) by {
                        assert(node_key != parent_key);
                    }
                    assert(b.is_parent(parent_key));
                    assert(b.kids(parent_key) =~= seq![wrapper_key]);
                    lemma_slot(b, parent_key, wrapper_key, 0);
                    assert(!b.is_floating(node_key)) by {
                        if b.is_floating(node_key) {
                            let i = choose|i: int|
                                0 <= i < b.floating.len() && #[trigger] b.floating[i].key
                                    == node_key;
                            assert(t.floating[i].key == node_key);
                        }
                    }
                    assert(!b.under(parent_key, node_key)) by {
                        if b.under(parent_key, node_key) {
                            assert(b.parents.contains_key(parent_key));
                            assert(t.is_floating(parent_key));
                            let i = choose|i: int|
                                0 <= i < t.floating.len() && #[trigger] t.floating[i].key
                                    == parent_key;
                            assert(t.parents[t.floating[i].key] == t.root);
                            assert(b.parents[parent_key] == b.root);
                            assert(b.under(b.root, node_key));
                            assert(b.root == node_key);
                        }
                    }
                }
                self.promote(node_key, wrapper_key, direction);
                true
            },
        }
    }

    /// Moves a command target in a direction. Answers whether it went anywhere.
    pub fn move_target_in_direction(&mut self, direction: Direction, target: NodeKey) -> (r: bool)
        requires
            old(self).wf(),
            old(self)@.next_key < u64::MAX,
        ensures
            final(self).wf(),
            (final(self)@, r) == old(self)@.move_commanded(direction, target),
            final(self)@.windows() == old(self)@.windows(),
            forall|k: NodeKey| #[trigger] final(self)@.loose(k) ==> old(self)@.loose(k),
            old(self)@.mentions_live() ==> final(self)@.mentions_live(),
    {
        if target == self.workspace_root() || !self.holds_node(target) || self.inner_parent_of(
            target,
        ).is_none() {
            return false;
        }
        let is_view = self.is_leaf(target);
        let old_parent = match self.parent_of(target) {
            Some(old_parent) => old_parent,
            None => {
                return false;
            },
        };
        let leaf = self.leaf_under_key(target);
        if !self.move_node(target, direction) {
            return false;
        }
        self.reap_empty(old_parent);
        if let Some(leaf) = leaf {
            self.set_seat_focus_preserving_switcher(leaf);
        }
        if !is_view && self.holds_node(target) {
            self.redirect_selection(Some(target));
        }
        true
    }

    /// Moves the command target of the tiled side in a direction.
    pub fn move_in_direction(&mut self, direction: Direction) -> (r: bool)
        requires
            old(self).wf(),
            old(self)@.next_key < u64::MAX,
        ensures
            final(self).wf(),
            (final(self)@, r) == old(self)@.move_commanded(
                direction,
                old(self)@.target_in(old(self)@.root),
            ),
            final(self)@.windows() == old(self)@.windows(),
            forall|k: NodeKey| #[trigger] final(self)@.loose(k) ==> old(self)@.loose(k),
            old(self)@.mentions_live() ==> final(self)@.mentions_live(),
    {
        let target = self.command_target_in(self.workspace_root());
        self.move_target_in_direction(direction, target)
    }
}

/// What wrapping everything a node holds leaves behind.
pub proof fn lemma_gathered(t: Tree, p: NodeKey, w: NodeKey, inner: Layout, outer: Layout)
    requires
        t.wf(),
        t.is_parent(p),
        t.nodes[p].children.len() > 0,
        !t.has(w),
        w.id < u64::MAX,
    ensures
        t.gathered(p, w, inner, outer).wf(),
        t.gathered(p, w, inner, outer).nodes[p].children == seq![w],
        t.gathered(p, w, inner, outer).nodes[p].layout == outer,
        t.gathered(p, w, inner, outer).nodes[p].tile is None,
        t.gathered(p, w, inner, outer).nodes[p].workspace == t.nodes[p].workspace,
        t.gathered(p, w, inner, outer).nodes[w].children == t.nodes[p].children,
        t.gathered(p, w, inner, outer).nodes[w].layout == inner,
        t.gathered(p, w, inner, outer).nodes[w].tile is None,
        t.gathered(p, w, inner, outer).parents.contains_key(w),
        t.gathered(p, w, inner, outer).parents[w] == p,
        t.gathered(p, w, inner, outer).root == t.root,
        t.gathered(p, w, inner, outer).floating == t.floating,
        forall|x: NodeKey|
            t.parents.contains_key(x) ==> #[trigger] t.gathered(
                p,
                w,
                inner,
                outer,
            ).parents.contains_key(x) && t.gathered(p, w, inner, outer).parents[x] == if
            t.nodes[p].children.contains(x) {
                w
            } else {
                t.parents[x]
            },
        forall|x: NodeKey|
            x != w && !t.parents.contains_key(x) ==> !(#[trigger] t.gathered(
                p,
                w,
                inner,
                outer,
            ).parents.contains_key(x)),
        w != p,
{
    crate::tree::lemma_added(t, w, Node::split(inner));
    let a = t.added(w, Node::split(inner));
    assert(a.nodes[p] == t.nodes[p]);
    crate::links::lemma_enclosed(a, p, w);
    let b = a.enclosed(p, w);
    crate::tree::lemma_with_node(b, p, b.nodes[p].with_layout(outer));
    let kids = t.nodes[p].children;
    assert forall|x: NodeKey| kids.contains(x) implies #[trigger] t.parents.contains_key(x) by {
        let i = choose|i: int| 0 <= i < kids.len() && kids[i] == x;
        assert(t.parents.contains_key(t.nodes[p].children[i]));
    }
}

} // verus!
