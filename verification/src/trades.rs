//! What a swap comes to.

use crate::axis::NodeKey;
use crate::layouts::lemma_moved_frame;
use crate::measure::ChildFractions;
use crate::swap::{lemma_crossed, lemma_dressed, lemma_listed_not_floating, lemma_same_frame, same_frame};
use crate::tree::Tree;
use crate::walk::lemma_slot;
use vstd::prelude::*;

verus! {

/// Whether two trees have the same lists and the same shares.
spec fn same_lists(t: Tree, u: Tree) -> bool {
    &&& u.parents == t.parents
    &&& forall|x: NodeKey| (#[trigger] u.nodes[x]).children == t.nodes[x].children
}

proof fn lemma_refocused_lists(t: Tree, k: NodeKey)
    ensures
        t.refocused(k).nodes == t.nodes,
        t.refocused(k).parents == t.parents,
        t.refocused(k).floating == t.floating,
        t.refocused(k).fullscreen == t.fullscreen,
{
}

proof fn lemma_afterwards(t: Tree, a: NodeKey, b: NodeKey, held: Option<NodeKey>)
    ensures
        same_lists(t, t.swap_refocused(a, b, held).swap_fullscreen(a, b)),
{
    reveal(Tree::swap_refocused);
    reveal(Tree::swap_fullscreen);
    if held is Some {
        lemma_refocused_lists(t, a);
        lemma_refocused_lists(t, b);
        lemma_refocused_lists(t.refocused(a), held->0);
        lemma_refocused_lists(t.refocused(b), held->0);
        lemma_refocused_lists(t, held->0);
    }
    let u = t.swap_refocused(a, b, held);
    assert(u.nodes == t.nodes && u.parents == t.parents);
    lemma_moved_frame(u, a, b);
    lemma_moved_frame(u, b, a);
    lemma_refocused_lists(u.fullscreen_moved(a, b), b);
    lemma_refocused_lists(u.fullscreen_moved(b, a), a);
}

/// Two nodes that are swapped change places: each stands in the list and at the place of the other,
/// and every other entry of every list is where it was.
pub proof fn law_swap_exchanges_places(
    t: Tree,
    a: NodeKey,
    b: NodeKey,
    p: NodeKey,
    i: int,
    q: NodeKey,
    j: int,
)
    requires
        t.wf(),
        a != b,
        !t.under(a, b),
        !t.under(b, a),
        t.sits(a, p, i),
        t.sits(b, q, j),
    ensures
        ({
            let u = t.swapped(a, b).0;
            &&& t.swapped(a, b).1
            &&& u.nodes[p].children[i] == b
            &&& u.nodes[q].children[j] == a
            &&& forall|x: NodeKey| #[trigger]
                t.has(x) ==> u.nodes[x].children.len() == t.nodes[x].children.len()
            &&& forall|x: NodeKey, n: int|
                t.has(x) && 0 <= n < t.nodes[x].children.len() && !(x == p && n == i) && !(x == q
                    && n == j) ==> #[trigger] u.nodes[x].children[n] == t.nodes[x].children[n]
            &&& u.parents[a] == q
            &&& u.parents[b] == p
        }),
{
    assert(t.is_parent(p) && t.is_parent(q));
    lemma_slot(t, p, a, i);
    lemma_slot(t, q, b, j);
    lemma_dressed(t, a, b);
    let d = t.boxes_swapped(a, b).shares_swapped(a, b);
    lemma_same_frame(t, d, a);
    lemma_same_frame(t, d, b);
    lemma_same_frame(t, d, p);
    lemma_same_frame(t, d, q);
    lemma_frame_wf(t, d);
    assert(d.has(a) && d.has(b) && d.has(p) && d.has(q));
    assert(d.swappable(a, b));
    reveal(Tree::slots_exchanged);
    let e = d.slots_exchanged(a, b);
    lemma_afterwards(e, a, b, t.seat.node());
    let u = t.swapped(a, b).0;
    assert(same_lists(e, u));
    assert(u.nodes[p].children == e.nodes[p].children);
    assert(u.nodes[q].children == e.nodes[q].children);
    let kp = t.nodes[p].children;
    assert(kp.no_duplicates());
    if p == q {
        let list = kp.update(i, b).update(j, a);
        assert(e == d.with_children(p, list));
        assert forall|x: NodeKey| #[trigger] t.has(x) implies e.nodes[x].children
            == if x == p {
            list
        } else {
            t.nodes[x].children
        } by {
            assert(d.has(x));
        }
    } else {
        lemma_crossed(d, a, b);
        assert forall|x: NodeKey| #[trigger] t.has(x) implies e.nodes[x].children == if x == p {
            kp.update(i, b)
        } else if x == q {
            t.nodes[q].children.update(j, a)
        } else {
            t.nodes[x].children
        } by {
            assert(d.has(x));
        }
    }
    assert forall|x: NodeKey| #[trigger] t.has(x) implies u.nodes[x].children.len()
        == t.nodes[x].children.len() by {
        assert(u.nodes[x].children == e.nodes[x].children);
    }
    assert forall|x: NodeKey, n: int|
        t.has(x) && 0 <= n < t.nodes[x].children.len() && !(x == p && n == i) && !(x == q && n
            == j) implies #[trigger] u.nodes[x].children[n] == t.nodes[x].children[n] by {
        assert(u.nodes[x].children == e.nodes[x].children);
    }
}

/// A common frame is enough for a tree to be well-formed.
#[verifier::spinoff_prover]
pub(crate) proof fn lemma_frame_wf(t: Tree, u: Tree)
    requires
        t.wf(),
        same_frame(t, u),
    ensures
        u.wf(),
{
    assert forall|k: NodeKey| #[trigger] u.is_floating(k) == t.is_floating(k) by {
        lemma_same_frame(t, u, k);
    }
    assert(t.has(t.root));
    assert(u.linked()) by {
        assert forall|p: NodeKey, i: int|
            #![trigger u.nodes[p].children[i]]
            u.has(p) && 0 <= i < u.nodes[p].children.len() implies u.parents.contains_key(
            u.nodes[p].children[i],
        ) && u.parents[u.nodes[p].children[i]] == p by {
            assert(t.has(p));
            assert(t.parents.contains_key(t.nodes[p].children[i]));
        }
        assert forall|p: NodeKey|
            #![trigger u.nodes[p].children]
            u.has(p) implies u.nodes[p].children.no_duplicates() by {
            assert(t.has(p));
            assert(t.nodes[p].children.no_duplicates());
        }
        assert forall|c: NodeKey| #[trigger] u.parents.contains_key(c) implies u.has(c) && u.has(
            u.parents[c],
        ) && (u.nodes[u.parents[c]].children.contains(c) || (u.is_floating(c) && u.parents[c]
            == u.root)) by {
            assert(t.parents.contains_key(c));
            assert(t.has(c));
            assert(t.has(t.parents[c]));
        }
    }
    assert(u.rooted()) by {
        assert forall|k: NodeKey| #[trigger] u.nodes.contains_key(k) && u.nodes[k].workspace implies k
            == u.root by {
            assert(u.has(k));
            assert(t.has(k));
            assert(t.nodes.contains_key(k));
        }
        assert forall|k: NodeKey| #[trigger]
            u.nodes.contains_key(k) && u.nodes[k].tile is Some implies u.nodes[k].children.len()
            == 0 by {
            assert(u.has(k));
            assert(t.has(k));
            assert(t.nodes.contains_key(k));
        }
        assert(u.has(u.root));
    }
    assert(u.floats()) by {
        assert forall|i: int| 0 <= i < u.floating.len() implies u.parents.contains_key(
            (#[trigger] u.floating[i]).key,
        ) && u.parents[u.floating[i].key] == u.root && !u.nodes[u.root].children.contains(
            u.floating[i].key,
        ) by {
            assert(t.parents.contains_key(t.floating[i].key));
        }
    }
    assert(u.seated()) by {
        assert forall|k: NodeKey| #[trigger] u.seat.order.contains(k) <==> u.has(k) by {
            assert(t.seat.order.contains(k) <==> t.has(k));
        }
    }
    assert(u.numbered()) by {
        assert forall|k: NodeKey| #[trigger] u.nodes.contains_key(k) implies k.id < u.next_key by {
            assert(u.has(k));
            assert(t.nodes.contains_key(k));
        }
    }
}

/// The shares of two nodes change hands in a swap.
pub proof fn law_swap_exchanges_shares(t: Tree, a: NodeKey, b: NodeKey)
    requires
        t.is_container(a),
        t.is_container(b),
        a != b,
    ensures
        t.shares_swapped(a, b).fractions_of(a) == t.fractions_of(b),
        t.shares_swapped(a, b).fractions_of(b) == t.fractions_of(a),
{
    reveal(Tree::shares_swapped);
}

/// Two groups that are swapped change their places on the stack, and each gets the geometry of the
/// place it comes to.
pub proof fn law_swapped_groups_change_places(t: Tree, i: int, j: int)
    requires
        t.wf(),
        0 <= i < t.floating.len(),
        0 <= j < t.floating.len(),
        i != j,
    ensures
        ({
            let (a, b) = (t.floating[i], t.floating[j]);
            let u = t.stack_crossed(a.key, b.key);
            &&& u.floating.len() == t.floating.len()
            &&& u.floating[i].key == b.key
            &&& u.floating[j].key == a.key
            &&& u.floating[i].geometry == a.geometry
            &&& u.floating[j].geometry == b.geometry
            &&& forall|n: int|
                0 <= n < t.floating.len() && n != i && n != j ==> #[trigger] u.floating[n]
                    == t.floating[n]
        }),
{
    reveal(Tree::stack_crossed);
    crate::swap::lemma_stack_index(t, t.floating[i].key, i);
    crate::swap::lemma_stack_index(t, t.floating[j].key, j);
}

/// A group swapped with a node of a list: the node has the place of the group on the stack and its
/// geometry, the group has the place of the node in the list.
pub proof fn law_swap_across_the_boundary(
    t: Tree,
    root: NodeKey,
    node: NodeKey,
    n: int,
    p: NodeKey,
    i: int,
)
    requires
        t.wf(),
        root != node,
        !t.under(root, node),
        !t.under(node, root),
        0 <= n < t.floating.len(),
        t.floating[n].key == root,
        t.sits(node, p, i),
    ensures
        ({
            let u = t.boundary_crossed(root, node);
            &&& u.floating.len() == t.floating.len()
            &&& u.floating[n].key == node
            &&& u.floating[n].geometry == t.floating[n].geometry
            &&& u.floating[n].id == t.floating[n].id
            &&& u.nodes[p].children == t.nodes[p].children.update(i, root)
            &&& forall|m: int|
                0 <= m < t.floating.len() && m != n ==> #[trigger] u.floating[m] == t.floating[m]
        }),
{
    reveal(Tree::boundary_crossed);
    assert(t.is_parent(p));
    lemma_slot(t, p, node, i);
    lemma_listed_not_floating(t, node);
    crate::swap::lemma_stack_index(t, root, n);
    let kids = t.nodes[p].children;
    assert(kids.no_duplicates());
    crate::tree::lemma_without_is_remove(kids, node);
    assert(kids.index_of(node) == i);
    assert(kids.remove(i).insert(i, root) =~= kids.update(i, root));
    let u = t.boundary_crossed(root, node);
    assert forall|m: int| 0 <= m < t.floating.len() && m != n implies #[trigger] u.floating[m]
        == t.floating[m] by {}
}

/// Two nodes can be swapped exactly when both are in a list and neither is above the other; two of
/// which one is a group when the other is a group or in a list.
pub proof fn law_what_can_be_swapped(t: Tree, a: NodeKey, b: NodeKey)
    requires
        t.wf(),
        t.has(a),
        t.has(b),
    ensures
        t.swapped(a, b).1 <==> a != b && !t.under(a, b) && !t.under(b, a) && t.slot_of(a) is Some
            && t.slot_of(b) is Some,
        t.swapped_at_boundary(a, b).1 <==> a != b && !t.under(a, b) && !t.under(b, a) && (
        t.is_floating(a) && t.is_floating(b) || t.is_floating(a) && t.slot_of(b) is Some
            || t.is_floating(b) && t.slot_of(a) is Some),
        !t.swapped(a, b).1 ==> t.swapped(a, b).0 == t,
        !t.swapped_at_boundary(a, b).1 ==> t.swapped_at_boundary(a, b).0 == t,
{
    if t.slot_of(a) is Some {
        lemma_listed_not_floating(t, a);
    }
    if t.slot_of(b) is Some {
        lemma_listed_not_floating(t, b);
    }
}

} // verus!
