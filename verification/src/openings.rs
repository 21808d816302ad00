//! Where new windows go, and what is left when one goes.

use crate::axis::{Direction, Layout, NodeKey};
use crate::bearings::sign;
use crate::focus::{law_focused_window_is_most_recent, lemma_settled_shape};
use crate::node::Node;
use crate::restore::{lemma_resynced_wf, lemma_window_gone_alone};
use crate::tile::{TileState, WindowId};
use crate::tree::{
    depth, lemma_added, lemma_depth, lemma_first_of, lemma_linked_at, lineage, Pick, Tree,
};
use crate::walk::lemma_slot;
use vstd::prelude::*;

verus! {

impl Tree {
    /// Whether `k` was focused last of everything below the workspace.
    pub open spec fn latest(self, k: NodeKey) -> bool {
        exists|a: int|
            0 <= a < self.seat.order.len() && #[trigger] self.seat.order[a] == k && forall|b: int|
                0 <= b < a ==> #[trigger] self.seat.order[b] == self.root
    }
}

/// The layout whose children run along a direction.
pub open spec fn laid_along(d: Direction) -> Layout {
    match d {
        Direction::Left | Direction::Right => Layout::SplitH,
        Direction::Up | Direction::Down => Layout::SplitV,
    }
}

/// The first of a list that is looked for is the one that nothing looked for comes before.
proof fn lemma_first_is(t: Tree, pick: Pick, a: int)
    requires
        0 <= a < t.seat.order.len(),
        t.meets(pick, t.seat.order[a]),
        forall|b: int| 0 <= b < a ==> !t.meets(pick, #[trigger] t.seat.order[b]),
    ensures
        t.recent(pick) == Some(t.seat.order[a]),
{
    lemma_first_of(t, t.seat.order, pick);
    let c = t.recent(pick)->0;
    let n = choose|n: int|
        0 <= n < t.seat.order.len() && t.seat.order[n] == c && forall|m: int|
            0 <= m < n ==> !t.meets(pick, #[trigger] t.seat.order[m]);
    assert(!(n < a)) by {
        if n < a {
            assert(!t.meets(pick, t.seat.order[n]));
        }
    }
    assert(!(a < n)) by {
        if a < n {
            assert(!t.meets(pick, t.seat.order[a]));
        }
    }
}

/// New windows map beside the node focused last.
proof fn lemma_maps_beside_the_latest(t: Tree, k: NodeKey)
    requires
        t.wf(),
        t.latest(k),
        k != t.root,
        t.under(k, t.root),
        !t.is_floating(k),
        t.has(k),
    ensures
        t.map_target() == Some(k),
{
    let a = choose|a: int|
        0 <= a < t.seat.order.len() && #[trigger] t.seat.order[a] == k && forall|b: int|
            0 <= b < a ==> #[trigger] t.seat.order[b] == t.root;
    assert(t.meets(Pick::BelowWorkspace, t.seat.order[a]));
    lemma_first_is(t, Pick::BelowWorkspace, a);
}

/// A node that hangs loose changes nothing about the others.
proof fn lemma_added_alike(t: Tree, new: NodeKey, node: Node, k: NodeKey)
    requires
        t.wf(),
        !t.has(new),
        new.id < u64::MAX,
        node.children.len() == 0,
        !node.workspace,
        t.has(k),
    ensures
        t.added(new, node).branch(k) == t.branch(k),
        t.added(new, node).is_floating(k) == t.is_floating(k),
        t.added(new, node).has(k),
        t.latest(k) ==> t.added(new, node).latest(k),
        t.added(new, node).kids(k) == t.kids(k),
        t.added(new, node).slot_of(k) == t.slot_of(k),
{
    let u = t.added(new, node);
    lemma_added(t, new, node);
    crate::sides::lemma_branch_alike(t, u, k);
    assert(u.seat.order == t.seat.order.push(new)) by {
        assert(!t.seat.order.contains(new));
    }
    if t.latest(k) {
        let a = choose|a: int|
            0 <= a < t.seat.order.len() && #[trigger] t.seat.order[a] == k && forall|b: int|
                0 <= b < a ==> #[trigger] t.seat.order[b] == t.root;
        assert(u.seat.order[a] == k);
        assert forall|b: int| 0 <= b < a implies #[trigger] u.seat.order[b] == u.root by {
            assert(t.seat.order[b] == t.root);
        }
    }
    if t.parents.contains_key(k) {
        assert(t.has(t.parents[k]));
        assert(u.kids(t.parents[k]) == t.kids(t.parents[k]));
    }
}

/// A new window opens right after the one focused last, and no other list changes.
pub proof fn law_new_window_opens_after_the_latest(
    t: Tree,
    tile: TileState,
    focus: bool,
    wide: bool,
    k: NodeKey,
    p: NodeKey,
    i: int,
)
    requires
        t.wf(),
        !t.options.autotile,
        t.expects(tile.key),
        t.latest(k),
        t.sits(k, p, i),
        t.under(k, t.root),
        t.branch(k) == t.root,
    ensures
        ({
            let u = t.window_mapped(t.root, tile, focus, wide);
            &&& u.nodes[p].children == t.nodes[p].children.insert(i + 1, tile.key)
            &&& u.parents == t.parents.insert(tile.key, p)
            &&& u.is_view(tile.key)
            &&& u.nodes[tile.key].tile == Some(tile)
            &&& forall|x: NodeKey|
                x != p && t.has(x) ==> #[trigger] u.nodes[x] == t.nodes[x]
        }),
{
    reveal(Tree::presplit);
    reveal(Tree::joined_at_focus);
    assert(t.is_parent(p));
    lemma_slot(t, p, k, i);
    crate::swap::lemma_listed_not_floating(t, k);
    assert(t.presplit(t.root, wide) == t);
    let node = Node::view_of(tile);
    lemma_added(t, tile.key, node);
    let a = t.added(tile.key, node);
    lemma_added_alike(t, tile.key, node, k);
    lemma_added_alike(t, tile.key, node, p);
    assert(a.under(k, a.root));
    lemma_maps_beside_the_latest(a, k);
    assert(a.focus_slot(a.root) == Some((p, i + 1)));
    let b = a.linked_at(tile.key, p, i + 1);
    lemma_settled_shape(b, tile.key, focus);
}

/// What a node hangs below is not changed by what happens to another that it is not below.
proof fn lemma_above_alike(t: Tree, u: Tree, k: NodeKey, x: NodeKey)
    requires
        t.wf(),
        u.wf(),
        u.root == t.root,
        u.floating == t.floating,
        t.has(x),
        !t.under(x, k),
        forall|y: NodeKey|
            y != k && t.has(y) ==> u.parents.contains_key(y) == #[trigger] t.parents.contains_key(y)
                && u.parents[y] == t.parents[y],
    ensures
        u.branch(x) == t.branch(x),
        t.under(x, t.root) ==> u.under(x, t.root),
    decreases depth(t.parents, x),
{
    assert(t.under(x, x));
    assert(u.under(t.root, t.root));
    assert(u.is_floating(x) == t.is_floating(x)) by {
        if t.is_floating(x) {
            let i = choose|i: int| 0 <= i < t.floating.len() && #[trigger] t.floating[i].key == x;
            assert(u.floating[i].key == x);
        }
        if u.is_floating(x) {
            let i = choose|i: int| 0 <= i < u.floating.len() && #[trigger] u.floating[i].key == x;
            assert(t.floating[i].key == x);
        }
    }
    if t.parents.contains_key(x) {
        lemma_depth(t.parents, x);
        assert(u.parents.contains_key(x));
        lemma_above_alike(t, u, k, t.parents[x]);
    } else {
        assert(!u.parents.contains_key(x));
    }
}

/// A window that is wrapped where it stands is tiled still, and still the latest.
#[verifier::spinoff_prover]
proof fn lemma_wrapped_latest(
    t: Tree,
    layout: Layout,
    k: NodeKey,
    p: NodeKey,
    i: int,
    new: NodeKey,
    node: Node,
)
    requires
        t.wf(),
        t.latest(k),
        t.is_view(k),
        t.sits(k, p, i),
        t.is_parent(p),
        t.under(k, t.root),
        t.branch(k) == t.root,
        t.next_key < u64::MAX,
        t.expects(new),
    ensures
        ({
            let w = NodeKey { id: t.next_key };
            let b = t.wrapped(p, k, w, Tree::asked_for(layout)).readdressed().added(new, node);
            &&& b.map_target() == Some(k)
            &&& b.branch(k) == t.root
            &&& b.slot_of(k) == Some((w, 0int))
            &&& b.root == t.root
        }),
{
    let w = NodeKey { id: t.next_key };
    assert(!t.has(w)) by {
        if t.has(w) {
            assert(t.nodes.contains_key(w));
        }
    }
    lemma_slot(t, p, k, i);
    crate::swap::lemma_listed_not_floating(t, k);
    let own = Node { geometry: t.box_of(k)->0, ..Tree::asked_for(layout) };
    lemma_added(t, w, own);
    let named = t.added(w, own);
    assert(!named.is_floating(k)) by {
        if named.is_floating(k) {
            let j = choose|j: int|
                0 <= j < named.floating.len() && #[trigger] named.floating[j].key == k;
            assert(t.floating[j].key == k);
        }
    }
    crate::links::lemma_interposed(named, k, w);
    let inner = named.interposed(k, w);
    let s = t.wrapped(p, k, w, Tree::asked_for(layout));
    let shared = inner.with_fractions(w, t.fractions_of(k)->0.narrowed());
    crate::layouts::lemma_moved_frame(shared, k, w);
    let moved = shared.fullscreen_moved(k, w);
    assert(moved.seat == named.seat && moved.floating == t.floating && moved.root == t.root) by {
        reveal(Tree::fullscreen_moved);
    }
    crate::layouts::lemma_wrapped(t, p, k, w, layout, i);
    assert(s.parents == inner.parents);
    assert(inner.parents == t.parents.insert(w, p).insert(k, w)) by {
        assert(inner.parents =~= t.parents.insert(w, p).insert(k, w));
    }
    crate::tree::lemma_parent_not_under_child(t.parents, k);
    assert forall|y: NodeKey| y != k && t.has(y) implies inner.parents.contains_key(y)
        == #[trigger] t.parents.contains_key(y) && inner.parents[y] == t.parents[y] by {}
    lemma_depth(t.parents, k);
    assert(t.under(p, t.root));
    lemma_above_alike(t, inner, k, p);
    crate::tree::lemma_branch_step(t, k);
    assert(inner.under(p, t.root));
    assert(w != k);
    assert(inner.parents.contains_key(w) && inner.parents[w] == p);
    assert(inner.parents.contains_key(k) && inner.parents[k] == w);
    assert(inner.under(w, t.root));
    assert(inner.under(k, t.root));
    assert(!inner.is_floating(w)) by {
        if inner.is_floating(w) {
            let j = choose|j: int|
                0 <= j < inner.floating.len() && #[trigger] inner.floating[j].key == w;
            assert(t.parents.contains_key(t.floating[j].key));
            assert(t.has(w));
        }
    }
    crate::tree::lemma_branch_step(inner, w);
    crate::tree::lemma_branch_step(inner, k);
    assert(w != t.root);
    assert(inner.branch(k) == t.root);
    let b = s.readdressed().added(new, node);
    assert(new != w);
    assert(b.parents == inner.parents && b.root == t.root && b.floating == t.floating);
    crate::sides::lemma_branch_alike(inner, b, k);
    assert(!b.is_floating(k)) by {
        if b.is_floating(k) {
            let j = choose|j: int| 0 <= j < b.floating.len() && #[trigger] b.floating[j].key == k;
            assert(t.floating[j].key == k);
        }
    }
    let a = choose|a: int|
        0 <= a < t.seat.order.len() && #[trigger] t.seat.order[a] == k && forall|n: int|
            0 <= n < a ==> #[trigger] t.seat.order[n] == t.root;
    assert(named.seat.order == t.seat.order.push(w)) by {
        assert(!t.seat.order.contains(w));
    }
    let at = if t.seat.node() == Some(k) {
        0
    } else {
        a
    };
    assert(s.seat.order[at] == k && at < s.seat.order.len()) by {
        if t.seat.node() == Some(k) {
            crate::seat::lemma_fronted(named.seat.raw_focus(w).order, k);
        }
    }
    assert(b.seat.order[at] == k && at < b.seat.order.len());
    assert forall|n: int| 0 <= n < at implies !b.meets(
        Pick::BelowWorkspace,
        #[trigger] b.seat.order[n],
    ) by {
        assert(b.seat.order[n] == t.seat.order[n]);
        assert(t.seat.order[n] == t.root);
    }
    assert(b.has(k)) by {
        assert(s.has(k) == t.has(k) || k == w) by {
            crate::insert::lemma_wrapped_slot(t, p, k, w, Tree::asked_for(layout), i);
        }
    }
    assert(b.under(k, b.root));
    lemma_first_is(b, Pick::BelowWorkspace, at);
    assert(b.kids(w) == seq![k]);
    assert(seq![k].contains(k)) by {
        assert(seq![k][0] == k);
    }
    assert(seq![k].index_of(k) == 0);
}

/// With autotiling a window that opens beside a window with siblings makes a pair with it: the two
/// stand in a container of their own where that window stood, the new one second, side by side in a
/// wide box and one above the other in a high one.
pub proof fn law_autotiled_window_makes_a_pair(
    t: Tree,
    tile: TileState,
    focus: bool,
    wide: bool,
    k: NodeKey,
    p: NodeKey,
    i: int,
)
    requires
        t.wf(),
        t.expects(tile.key),
        t.latest(k),
        t.is_view(k),
        t.sits(k, p, i),
        t.nodes[p].children.len() >= 2,
        t.under(k, t.root),
        t.branch(k) == t.root,
        t.next_key < u64::MAX,
        t.autotile(k, wide) is Some,
    ensures
        ({
            let w = NodeKey { id: t.next_key };
            let u = t.window_mapped(t.root, tile, focus, wide);
            &&& u.nodes[p].children == t.nodes[p].children.update(i, w)
            &&& u.nodes[w].children == seq![k, tile.key]
            &&& u.nodes[w].layout == if wide {
                Layout::SplitH
            } else {
                Layout::SplitV
            }
        }),
{
    assert(t.is_parent(p));
    lemma_slot(t, p, k, i);
    crate::swap::lemma_listed_not_floating(t, k);
    lemma_maps_beside_the_latest(t, k);
    let w = NodeKey { id: t.next_key };
    let layout = t.autotile(k, wide)->0;
    let node = Node::view_of(tile);
    crate::layouts::law_split_gives_a_window_its_container(t, layout, k, p, i);
    lemma_wrapped_latest(t, layout, k, p, i, tile.key, node);
    let s = t.split_commanded(layout, k).0;
    assert(s == t.wrapped(p, k, w, Tree::asked_for(layout)).readdressed()) by {
        reveal(Tree::leaf_split);
        reveal(Tree::split_commanded);
        assert(t.kids(p).contains(k));
    }
    assert(t.presplit(t.root, wide) == s) by {
        reveal(Tree::presplit);
    }
    let b = s.added(tile.key, node);
    assert(b.root == t.root);
    let x = b.linked_at(tile.key, w, 1);
    let u = t.window_mapped(t.root, tile, focus, wide);
    assert(u == x.settled_on(tile.key, focus)) by {
        reveal(Tree::joined_at_focus);
    }
    lemma_settled_shape(x, tile.key, focus);
    assert(tile.key != w && tile.key != p);
    assert(p != w) by {
        assert(!t.has(w)) by {
            if t.has(w) {
                assert(t.nodes.contains_key(w));
            }
        }
    }
    assert(seq![k].insert(1, tile.key) =~= seq![k, tile.key]);
}

/// A new window that is to have the focus gets it; one that is not leaves it where it is.
pub proof fn law_new_window_takes_the_focus(t: Tree, k: NodeKey, p: NodeKey, idx: int)
    requires
        t.wf(),
        t.is_view(k),
        !t.parents.contains_key(k),
        t.is_parent(p),
        !t.under(p, k),
        0 <= idx,
    ensures
        t.joined(k, p, idx, true).seat.leaf == Some(k),
        t.joined(k, p, idx, true).seat.selected is None,
        t.joined(k, p, idx, true).seat.order[0] == k,
        t.seat.leaf is Some ==> t.joined(k, p, idx, false).seat == t.seat,
{
    lemma_linked_at(t, k, p, idx);
    law_focused_window_is_most_recent(t.linked_at(k, p, idx), k);
}

/// A window appended to the workspace is its last child.
pub proof fn law_appended_window_is_last(t: Tree, tile: TileState, focus: bool)
    requires
        t.wf(),
        t.expects(tile.key),
    ensures
        t.appended(tile, focus).nodes[t.root].children == t.nodes[t.root].children.push(tile.key),
        t.appended(tile, focus).nodes[tile.key].tile == Some(tile),
{
    let a = t.added(tile.key, Node::view_of(tile));
    assert(a.nodes[t.root] == t.nodes[t.root]);
    let kids = t.nodes[t.root].children;
    lemma_settled_shape(a.linked_at(tile.key, t.root, kids.len() as int), tile.key, focus);
    assert(kids.insert(kids.len() as int, tile.key) =~= kids.push(tile.key));
}

/// A window put after another stands right after it.
pub proof fn law_window_put_after_another(
    t: Tree,
    id: WindowId,
    tile: TileState,
    focus: bool,
    k: NodeKey,
    p: NodeKey,
    i: int,
)
    requires
        t.wf(),
        t.expects(tile.key),
        t.recent(Pick::Window(id)) == Some(k),
        t.sits(k, p, i),
        t.branch(k) == t.root,
    ensures
        t.joined_after(id, tile, focus).nodes[p].children == t.nodes[p].children.insert(
            i + 1,
            tile.key,
        ),
{
    assert(t.is_parent(p));
    lemma_slot(t, p, k, i);
    let a = t.added(tile.key, Node::view_of(tile));
    lemma_settled_shape(a.linked_at(tile.key, p, i + 1), tile.key, focus);
}

/// A window put at an edge of the workspace is its first child to the left or above, its last one
/// to the right or below, and the workspace runs that way. If it had to turn, all it held stands
/// together in one container with the former layout.
pub proof fn law_window_at_the_edge(t: Tree, d: Direction, tile: TileState, focus: bool)
    requires
        t.wf(),
        t.expects(tile.key),
        t.leaf_under(t.root) is Some,
        t.nodes[t.root].children.len() > 0,
        t.next_key < u64::MAX,
    ensures
        ({
            let u = t.joined_edge(d, tile, focus);
            let old = t.nodes[t.root].children;
            let w = NodeKey { id: t.next_key };
            let rest = if t.nodes[t.root].layout == laid_along(d) {
                old
            } else {
                seq![w]
            };
            &&& u.nodes[t.root].layout == laid_along(d)
            &&& u.nodes[t.root].children == if sign(d) < 0 {
                seq![tile.key] + rest
            } else {
                rest.push(tile.key)
            }
            &&& t.nodes[t.root].layout != laid_along(d) ==> u.nodes[w].children == old
                && u.nodes[w].layout == t.nodes[t.root].layout
        }),
{
    let own = t.nodes[t.root].layout;
    let w = NodeKey { id: t.next_key };
    assert(!t.has(w)) by {
        if t.has(w) {
            assert(t.nodes.contains_key(w));
        }
    }
    crate::movement::lemma_gathered(t, t.root, w, own, d.along());
    let s = if own != d.along() {
        t.gathered(t.root, w, own, d.along())
    } else {
        t
    };
    let a = s.added(tile.key, Node::view_of(tile));
    assert(tile.key != w && tile.key != t.root);
    let kids = s.nodes[t.root].children;
    assert(a.nodes[t.root] == s.nodes[t.root]);
    let at = if d.leading() {
        0
    } else {
        kids.len() as int
    };
    lemma_settled_shape(a.linked_at(tile.key, t.root, at), tile.key, focus);
    assert(s.kids(t.root) == kids) by {
        assert(s.has(t.root));
    }
    assert(kids.insert(0, tile.key) =~= seq![tile.key] + kids);
    assert(kids.insert(kids.len() as int, tile.key) =~= kids.push(tile.key));
}

/// A window put on one side of another node is right beside it on that side: in the list of the
/// node if that runs that way, else in a new container for the two, which stands where the node
/// stood and runs that way.
pub proof fn law_window_put_beside(
    t: Tree,
    target: NodeKey,
    d: Direction,
    tile: TileState,
    focus: bool,
    p: NodeKey,
    i: int,
)
    requires
        t.wf(),
        t.expects(tile.key),
        t.leaf_under(t.root) is Some,
        t.sits(target, p, i),
        t.next_key < u64::MAX,
    ensures
        ({
            let u = t.joined_beside(target, d, tile, focus);
            let w = NodeKey { id: t.next_key };
            if t.nodes[p].layout == laid_along(d) {
                u.nodes[p].children == t.nodes[p].children.insert(
                    if sign(d) < 0 {
                        i
                    } else {
                        i + 1
                    },
                    tile.key,
                )
            } else {
                &&& u.nodes[p].children == t.nodes[p].children.update(i, w)
                &&& u.nodes[w].layout == laid_along(d)
                &&& u.nodes[w].children == if sign(d) < 0 {
                    seq![tile.key, target]
                } else {
                    seq![target, tile.key]
                }
            }
        }),
{
    assert(t.is_parent(p));
    lemma_slot(t, p, target, i);
    let a = t.added(tile.key, Node::view_of(tile));
    let w = NodeKey { id: t.next_key };
    lemma_added(t, tile.key, Node::view_of(tile));
    assert(a.next_key == t.next_key);
    assert(!a.has(w)) by {
        if t.has(w) {
            assert(t.nodes.contains_key(w));
        }
    }
    if t.nodes[p].layout == d.along() {
        let at = if d.leading() {
            i
        } else {
            i + 1
        };
        lemma_settled_shape(a.linked_at(tile.key, p, at), tile.key, focus);
    } else {
        let v = a.paired(target, tile.key, w, d);
        lemma_settled_shape(v, tile.key, focus);
        assert(a.sits(target, p, i));
        lemma_paired(a, target, tile.key, w, d, p, i);
    }
}

/// Two nodes in a container of their own, which stands where the one stood.
#[verifier::spinoff_prover]
proof fn lemma_paired(
    a: Tree,
    target: NodeKey,
    new: NodeKey,
    w: NodeKey,
    d: Direction,
    p: NodeKey,
    i: int,
)
    requires
        a.wf(),
        a.sits(target, p, i),
        a.is_parent(p),
        a.has(new),
        new != target,
        !a.has(w),
        w.id < u64::MAX,
    ensures
        ({
            let v = a.paired(target, new, w, d);
            &&& v.nodes[p].children == a.nodes[p].children.update(i, w)
            &&& v.nodes[w].layout == laid_along(d)
            &&& v.nodes[w].children == if sign(d) < 0 {
                seq![new, target]
            } else {
                seq![target, new]
            }
        }),
{
    lemma_slot(a, p, target, i);
    crate::swap::lemma_listed_not_floating(a, target);
    let own = Tree::asked_for(d.along());
    lemma_added(a, w, own);
    let b = a.added(w, own);
    assert(!b.is_floating(target)) by {
        if b.is_floating(target) {
            let j = choose|j: int|
                0 <= j < b.floating.len() && #[trigger] b.floating[j].key == target;
            assert(a.floating[j].key == target);
        }
    }
    crate::links::lemma_interposed(b, target, w);
    let kids = a.nodes[p].children;
    assert(b.nodes[p].children == kids);
    assert(kids.no_duplicates());
    crate::tree::lemma_without_is_remove(kids, target);
    assert(kids.index_of(target) == i);
    let c = b.unlinked(target);
    let e = c.linked_at(w, p, i);
    assert(e.nodes[p].children =~= kids.update(i, w));
    let f = b.interposed(target, w);
    assert(f.nodes[w].children == seq![target]);
    let at = if d.leading() {
        0int
    } else {
        1
    };
    let g = f.linked_at(new, w, at);
    assert(g.nodes[w].children =~= if sign(d) < 0 {
        seq![new, target]
    } else {
        seq![target, new]
    });
    let h = g.with_fractions(w, a.fractions_of(target)->0.narrowed());
    crate::layouts::lemma_moved_frame(h, target, w);
    let v = a.paired(target, new, w, d);
    assert(v == h.fullscreen_moved(target, w));
    assert(v.nodes[w].layout == h.nodes[w].layout);
    assert(v.nodes[p].layout == h.nodes[p].layout);
}

// ---------------------------------------------------------------------------------------------
// Closing
// ---------------------------------------------------------------------------------------------

/// A window that goes and leaves siblings behind goes alone: every other node is as it was, but
/// that the list of its parent is without it, the others in their order.
pub proof fn law_closing_takes_the_window_alone(t: Tree, k: NodeKey, p: NodeKey, i: int)
    requires
        t.wf(),
        t.is_view(k),
        t.sits(k, p, i),
        t.nodes[p].children.len() >= 2,
    ensures
        ({
            let u = t.window_gone(k);
            &&& u.wf()
            &&& !u.has(k)
            &&& u.nodes[p] == t.nodes[p].with_children(t.nodes[p].children.remove(i))
            &&& forall|x: NodeKey|
                x != k && x != p && t.has(x) ==> u.has(x) && #[trigger] u.nodes[x] == t.nodes[x]
            &&& u.floating == t.floating
        }),
{
    assert(t.is_parent(p));
    lemma_slot(t, p, k, i);
    crate::swap::lemma_listed_not_floating(t, k);
    lemma_window_gone_alone(t, k);
    lemma_depth(t.parents, k);
}

/// When the focused window goes and its container keeps another, the focus goes to the window of
/// that container that was focused last before it.
pub proof fn law_focus_after_closing(
    t: Tree,
    k: NodeKey,
    p: NodeKey,
    i: int,
    w: NodeKey,
    b: int,
)
    requires
        t.wf(),
        t.is_view(k),
        t.sits(k, p, i),
        t.nodes[p].children.len() >= 2,
        t.seat.leaf == Some(k),
        t.seat.selected is None,
        t.fullscreen is None,
        t.is_view(w),
        t.window_gone(k).under(w, p),
        t.branch(k) == t.root || t.in_float(k),
        0 <= b < t.seat.order.len(),
        t.seat.order[b] == w,
        w != k,
    ensures
        t.window_gone(k).seat.leaf matches Some(l) && t.is_view(l) && l != k
            && t.window_gone(k).under(l, p) && exists|c: int|
            0 <= c <= b && #[trigger] t.seat.order[c] == l,
{
    assert(t.is_parent(p));
    lemma_slot(t, p, k, i);
    crate::swap::lemma_listed_not_floating(t, k);
    lemma_window_gone_alone(t, k);
    crate::restore::lemma_gone_before_focus(t, k);
    let f = crate::restore::before_focus(t, k);
    let u = t.window_gone(k);
    let g = f.pruned();
    assert forall|x: NodeKey| #[trigger] f.seat.order.contains(x) implies f.nodes.dom().contains(
        x,
    ) by {
        assert(f.has(x));
    }
    crate::seat::lemma_within_all(f.seat.order, f.nodes.dom());
    assert(g.seat.order == f.seat.order);
    crate::tree::lemma_with_seat(f, g.seat);
    lemma_depth(t.parents, k);
    let chain = lineage(t.parents, p);
    crate::tree::lemma_lineage(t.parents, p);
    assert(chain[0] == p);
    assert(g.under(w, p));
    let pick = Pick::ViewUnder(p);
    lemma_first_of(g, g.seat.order, pick);
    assert(g.is_view(w));
    assert(g.meets(pick, w));
    assert(g.seat.order.contains(w));
    let n = choose|n: int| 0 <= n < g.seat.order.len() && g.seat.order[n] == w;
    assert(g.meets(pick, g.seat.order[n]));
    let l = g.recent(pick)->0;
    assert(g.inactive_view(p) == Some(l));
    assert(g.nearest_view(chain) == Some(l));
    assert(g.all_leaves().len() > 0) by {
        crate::restore::lemma_some_window(t, g, k, p, w);
    }
    law_focused_window_is_most_recent(g, l);
    assert(u.seat.leaf == Some(l));
    let m = choose|m: int|
        0 <= m < g.seat.order.len() && g.seat.order[m] == l && forall|j: int|
            0 <= j < m ==> !g.meets(pick, #[trigger] g.seat.order[j]);
    assert(m <= n) by {
        if n < m {
            assert(!g.meets(pick, g.seat.order[n]));
        }
    }
    lemma_without_order(t.seat.order, k, m, n, b);
}

/// Taking one entry out keeps the others in their order.
proof fn lemma_without_order(order: Seq<NodeKey>, k: NodeKey, m: int, n: int, b: int)
    requires
        order.no_duplicates(),
        order.contains(k),
        0 <= m <= n < crate::seat::without(order, k).len(),
        0 <= b < order.len(),
        order[b] == crate::seat::without(order, k)[n],
    ensures
        exists|c: int| 0 <= c <= b && #[trigger] order[c] == crate::seat::without(order, k)[m],
{
    crate::tree::lemma_without_is_remove(order, k);
    let at = order.index_of(k);
    let out = order.remove(at);
    let back = |j: int|
        if j < at {
            j
        } else {
            j + 1
        };
    assert(out[m] == order[back(m)]);
    assert(out[n] == order[back(n)]);
    assert(b == back(n));
    assert(0 <= back(m) <= b);
}

} // verus!
