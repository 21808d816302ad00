//! A window that leaves a floating group and comes back to where it was.

use crate::arena::{law_child_lists_fit, ContainerArena};
use crate::arrival::lemma_floating_linked;
use crate::axis::NodeKey;
use crate::cache::ArrangeScope;
use crate::focus::{lemma_leads, lemma_settled_shape};
use crate::leafcache::lemma_with_caches;
use crate::node::Node;
use crate::paths::{law_address_leads_back, lemma_at_path_push};
use crate::seat::lemma_within_all;
use crate::sides::law_floating_windows_are_listed;
use crate::tile::{Slot, TileState, WindowId};
use crate::tree::{
    depth, lemma_added, lemma_branch, lemma_branch_step, lemma_depth, lemma_dropped, lemma_first_of,
    lemma_linked_at, lemma_raised_lineage, lemma_unlinked, lemma_with_seat, lemma_without_is_remove, lineage, room,
    Pick, Tree,
};
use crate::walk::{lemma_branch_of_float, lemma_step_down};
use vstd::prelude::*;

verus! {

impl Tree {
    /// A tile back in the group its hint leads to, without the focus.
    pub open spec fn tile_back(self, tile: TileState) -> Option<Tree> {
        match self.hinted_root(tile.floating_reinsert_hint) {
            Some(root) => Some(
                self.tile_restored(
                    root,
                    TileState { floating_reinsert_hint: None, ..tile },
                    false,
                    tile.floating_reinsert_hint->0.info->0,
                ),
            ),
            None => None,
        }
    }
}

pub(crate) proof fn lemma_focused_wf(t: Tree, k: NodeKey)
    requires
        t.wf(),
    ensures
        t.focused(k).wf(),
{
    match t.leaf_under(k) {
        Some(leaf) => {
            lemma_leads(t, k);
            lemma_raised_lineage(t, k, Some(leaf), None);
            let u = t.with_seat(t.seat.focus(lineage(t.parents, k), Some(leaf)));
            lemma_with_caches(u, u.refreshed().caches);
        },
        None => {
            lemma_with_seat(t, t.defocused().seat);
        },
    }
}

proof fn lemma_first_focused_wf(t: Tree)
    requires
        t.wf(),
    ensures
        t.first_focused().wf(),
{
    match t.leaf_under(t.root) {
        Some(k) => {
            lemma_focused_wf(t, k);
        },
        None => {
            if t.all_leaves().len() > 0 {
                lemma_focused_wf(t, t.all_leaves()[0]);
            } else {
                lemma_with_seat(t, t.defocused().seat);
            }
        },
    }
}

pub(crate) proof fn lemma_resynced_wf(t: Tree)
    requires
        t.wf(),
    ensures
        t.resynced().wf(),
{
    if t.seat.leaf is None {
        match t.inactive_anywhere() {
            Some(k) => {
                lemma_focused_wf(t, k);
            },
            None => {
                lemma_first_focused_wf(t);
            },
        }
    }
}

/// Focus settled after a node went leaves the tree as it is.
proof fn lemma_reconciled(t: Tree, removed: bool, former: Seq<NodeKey>, below: bool)
    requires
        t.wf(),
    ensures
        t.reconciled(removed, former, below).wf(),
        t.reconciled(removed, former, below).nodes == t.nodes,
        t.reconciled(removed, former, below).parents == t.parents,
        t.reconciled(removed, former, below).root == t.root,
        t.reconciled(removed, former, below).floating == t.floating,
        t.reconciled(removed, former, below).next_key == t.next_key,
{
    let u = t.pruned();
    assert forall|a: NodeKey| #[trigger] t.seat.order.contains(a) implies t.nodes.dom().contains(
        a,
    ) by {}
    lemma_within_all(t.seat.order, t.nodes.dom());
    lemma_with_seat(t, u.seat);
    lemma_with_seat(u, u.defocused().seat);
    let next = match u.nearest_view(former) {
        Some(k) => Some(k),
        None => u.inactive_anywhere(),
    };
    match next {
        Some(k) => {
            lemma_focused_wf(u, k);
            lemma_with_seat(u, u.seat.with_leaf(Some(k)));
        },
        None => {
            lemma_first_focused_wf(u);
        },
    }
}

/// The tree a window that goes alone leaves, before the focus is settled.
pub(crate) open spec fn before_focus(t: Tree, k: NodeKey) -> Tree {
    t.unlinked(k).dropped(k).repaired().deselected_dead()
}

/// What is left before the focus is settled.
pub(crate) proof fn lemma_gone_before_focus(t: Tree, k: NodeKey)
    requires
        t.wf(),
        t.is_view(k),
        t.parents.contains_key(k),
        !t.is_floating(k),
        t.nodes[t.parents[k]].children.len() >= 2,
    ensures
        ({
            let f = before_focus(t, k);
            let p = t.parents[k];
            let kids = t.nodes[p].children;
            &&& f.wf()
            &&& f.nodes == t.nodes.insert(
                p,
                t.nodes[p].with_children(kids.remove(kids.index_of(k))),
            ).remove(k)
            &&& f.parents == t.parents.remove(k)
            &&& f.root == t.root
            &&& f.floating == t.floating
            &&& f.next_key == t.next_key
            &&& f.seat.order == crate::seat::without(t.seat.order, k)
            &&& t.seat.leaf == Some(k) ==> f.seat.leaf is None
            &&& t.seat.selected is None ==> f.seat.selected is None
            &&& t.window_gone(k) == f.reconciled(
                t.seat.leaf == Some(k),
                lineage(t.parents, p),
                t.in_fullscreen(k),
            ).arranging(ArrangeScope::Workspace)
        }),
{
    let p = t.parents[k];
    let kids = t.nodes[p].children;
    lemma_unlinked(t, k);
    lemma_without_is_remove(kids, k);
    let a = t.unlinked(k);
    assert(k != t.root);
    lemma_depth(t.parents, k);
    lemma_dropped(a, k);
    let b = a.dropped(k);
    assert(b.nodes[p].children.len() >= 1);
    assert(!b.is_barren(p));
    assert(b.reaped(p) == b) by {
        crate::tree::lemma_lineage(b.parents, p);
    }
    lemma_repaired(b);
    let e = b.repaired();
    lemma_with_seat(e, e.deselected_dead().seat);
}

/// Bringing the seat up to date changes nothing else that is kept.
proof fn lemma_repaired(b: Tree)
    requires
        b.wf(),
    ensures
        b.repaired().wf(),
        b.repaired().nodes == b.nodes,
        b.repaired().parents == b.parents,
        b.repaired().root == b.root,
        b.repaired().floating == b.floating,
        b.repaired().next_key == b.next_key,
        b.repaired().seat.order == b.seat.order,
        b.seat.leaf is None ==> b.repaired().seat.leaf is None,
        b.seat.selected is None ==> b.repaired().seat.selected is None,
{
    let c = match b.seat.leaf {
        Some(l) if !b.is_view(l) => b.with_seat(b.seat.with_leaf(b.leaf_under(b.root))),
        _ => b,
    };
    lemma_with_seat(b, c.seat);
    lemma_with_seat(c, c.deselected_dead().seat);
    let d = c.deselected_dead();
    lemma_with_caches(d, d.readdressed().caches);
}

/// A window that leaves other children behind only goes itself.
pub(crate) proof fn lemma_window_gone_alone(t: Tree, k: NodeKey)
    requires
        t.wf(),
        t.is_view(k),
        t.parents.contains_key(k),
        !t.is_floating(k),
        t.nodes[t.parents[k]].children.len() >= 2,
    ensures
        ({
            let u = t.window_gone(k);
            let p = t.parents[k];
            let kids = t.nodes[p].children;
            &&& u.wf()
            &&& u.nodes == t.nodes.insert(
                p,
                t.nodes[p].with_children(kids.remove(kids.index_of(k))),
            ).remove(k)
            &&& u.parents == t.parents.remove(k)
            &&& u.root == t.root
            &&& u.floating == t.floating
            &&& u.next_key == t.next_key
        }),
{
    let p = t.parents[k];
    lemma_gone_before_focus(t, k);
    let f = before_focus(t, k);
    let (removed, former, below) = (
        t.seat.leaf == Some(k),
        lineage(t.parents, p),
        t.in_fullscreen(k),
    );
    lemma_reconciled(f, removed, former, below);
    let g = f.reconciled(removed, former, below);
    lemma_with_caches(g, t.window_gone(k).caches);
}

/// A window beside one that went is still a window of the workspace.
pub(crate) proof fn lemma_some_window(t: Tree, g: Tree, k: NodeKey, p: NodeKey, w: NodeKey)
    requires
        t.wf(),
        g.wf(),
        t.parents.contains_key(k),
        t.parents[k] == p,
        !t.is_floating(k),
        g.parents == t.parents.remove(k),
        g.root == t.root,
        g.floating == t.floating,
        g.is_view(w),
        g.under(w, p),
        t.branch(k) == t.root || t.in_float(k),
    ensures
        g.all_leaves().len() > 0,
{
    assert forall|x: NodeKey| #[trigger] g.is_floating(x) == t.is_floating(x) by {}
    lemma_depth(t.parents, k);
    lemma_branch_step(t, k);
    let root = if p == t.root {
        t.root
    } else {
        t.branch(p)
    };
    assert(p == t.root || t.branch(k) == t.branch(p));
    lemma_under_branch(t, g, k, p);
    if root == t.root {
        crate::tree::lemma_under_trans(g.parents, w, p, t.root);
        lemma_tiled_or_floating(g, w);
        if g.branch(w) == g.root {
            crate::walk::law_leaves_are_the_windows_below(g, g.root, w);
            assert(g.leaves(g.root).contains(w));
            assert(g.leaves(g.root).len() > 0);
        } else {
            law_floating_windows_are_listed(g, w);
            assert(g.floating_leaves_from(0).contains(w));
            assert(g.floating_leaves_from(0).len() > 0);
        }
    } else {
        assert(t.is_floating(root));
        crate::tree::lemma_under_trans(g.parents, w, p, root);
        lemma_branch_of_float(g, root, w);
        law_floating_windows_are_listed(g, w);
        assert(g.floating_leaves_from(0).contains(w));
        assert(g.floating_leaves_from(0).len() > 0);
    }
}

/// The root of the branch a node was in is still above its former parent.
proof fn lemma_under_branch(t: Tree, g: Tree, k: NodeKey, p: NodeKey)
    requires
        t.wf(),
        g.wf(),
        t.parents.contains_key(k),
        t.parents[k] == p,
        g.parents == t.parents.remove(k),
        p == t.root || t.branch(k) == t.branch(p),
    ensures
        g.under(p, if p == t.root {
            t.root
        } else {
            t.branch(p)
        }),
{
    let root = if p == t.root {
        t.root
    } else {
        t.branch(p)
    };
    assert(t.has(p));
    lemma_branch(t, p);
    crate::tree::lemma_parent_not_under_child(t.parents, k);
    assert(t.under(p, root)) by {
        assert(t.under(t.root, t.root));
    }
    lemma_still_under(t, g, k, p, root);
}

proof fn lemma_still_under(t: Tree, g: Tree, k: NodeKey, x: NodeKey, top: NodeKey)
    requires
        t.wf(),
        g.wf(),
        g.parents == t.parents.remove(k),
        t.under(x, top),
        !t.under(x, k),
    ensures
        g.under(x, top),
    decreases depth(t.parents, x),
{
    assert(g.under(top, top));
    if x != top {
        lemma_depth(t.parents, x);
        assert(t.under(x, x));
        lemma_still_under(t, g, k, t.parents[x], top);
    }
}

/// What is below the workspace is tiled or floats.
proof fn lemma_tiled_or_floating(t: Tree, x: NodeKey)
    requires
        t.wf(),
        t.under(x, t.root),
    ensures
        t.branch(x) == t.root || t.is_floating(t.branch(x)),
    decreases depth(t.parents, x),
{
    if t.parents.contains_key(x) {
        lemma_depth(t.parents, x);
        lemma_branch_step(t, x);
        if t.parents[x] != t.root {
            lemma_tiled_or_floating(t, t.parents[x]);
        }
    }
}

/// Trees with the same links list the same windows below each node.
pub(crate) proof fn lemma_leaves_alike(t: Tree, u: Tree, k: NodeKey)
    requires
        t.wf(),
        u.wf(),
        u.parents == t.parents,
        forall|x: NodeKey| #[trigger] u.kids(x) == t.kids(x),
        forall|x: NodeKey| #[trigger] u.is_view(x) == t.is_view(x),
    ensures
        u.leaves(k) == t.leaves(k),
    decreases room(t.parents, k), t.kids(k).len() + 2,
{
    if !t.is_view(k) {
        lemma_leaves_from_alike(t, u, k, 0);
    }
    assert(u.is_view(k) == t.is_view(k));
}

proof fn lemma_leaves_from_alike(t: Tree, u: Tree, k: NodeKey, i: int)
    requires
        t.wf(),
        u.wf(),
        u.parents == t.parents,
        forall|x: NodeKey| #[trigger] u.kids(x) == t.kids(x),
        forall|x: NodeKey| #[trigger] u.is_view(x) == t.is_view(x),
        0 <= i,
    ensures
        u.leaves_from(k, i) == t.leaves_from(k, i),
    decreases room(t.parents, k), t.kids(k).len() - i + 1,
{
    assert(u.kids(k) == t.kids(k));
    if i < t.kids(k).len() {
        let c = t.kids(k)[i];
        assert(t.parents.contains_key(t.nodes[k].children[i]));
        lemma_depth(t.parents, c);
        lemma_leaves_alike(t, u, c);
        lemma_leaves_from_alike(t, u, k, i + 1);
    }
}

proof fn lemma_floating_leaves_alike(t: Tree, u: Tree, i: int)
    requires
        t.wf(),
        u.wf(),
        u.parents == t.parents,
        u.floating == t.floating,
        forall|x: NodeKey| #[trigger] u.kids(x) == t.kids(x),
        forall|x: NodeKey| #[trigger] u.is_view(x) == t.is_view(x),
        0 <= i,
    ensures
        u.floating_leaves_from(i) == t.floating_leaves_from(i),
    decreases t.floating.len() - i,
{
    if i < t.floating.len() {
        lemma_leaves_alike(t, u, t.floating[i].key);
        lemma_floating_leaves_alike(t, u, i + 1);
    }
}

/// The way down to a node does not pass its own child list.
proof fn lemma_way_down(t: Tree, u: Tree, p: NodeKey, x: NodeKey)
    requires
        t.wf(),
        t.has(x),
        t.under(p, x),
        forall|q: NodeKey| #[trigger]
            t.nodes.contains_key(q) ==> t.nodes[q].children.len() <= usize::MAX,
        forall|q: NodeKey| q != p ==> #[trigger] u.kids(q) == t.kids(q),
    ensures
        u.at_path(t.branch(x), t.address(x)) == Some(x),
    decreases depth(t.parents, x),
{
    if t.parents.contains_key(x) && !t.is_floating(x) {
        let y = t.parents[x];
        lemma_depth(t.parents, x);
        lemma_branch_step(t, x);
        assert(t.under(x, y)) by {
            assert(t.under(y, y));
        }
        crate::tree::lemma_under_trans(t.parents, p, x, y);
        crate::tree::lemma_under_depth(t.parents, p, x);
        assert(y != p);
        lemma_way_down(t, u, p, y);
        let kids = t.nodes[y].children;
        assert(kids.contains(x));
        assert(t.is_parent(y)) by {
            assert(kids.len() > 0);
        }
        let w = choose|i: int| 0 <= i < kids.len() && kids[i] == x;
        crate::walk::lemma_slot(t, y, x, w);
        assert(u.kids(y) == t.kids(y));
        lemma_at_path_push(u, t.branch(x), t.address(y), kids.index_of(x) as usize);
    } else if t.is_floating(x) {
        lemma_branch_of_float(t, x, x);
    }
}

/// The groups by id: with no two alike, the first found is the one.
proof fn lemma_place_of_id(t: Tree, idx: int, i: int)
    requires
        t.groups_differ(),
        0 <= i <= idx < t.floating.len(),
    ensures
        t.place_of_id(t.floating[idx].id, i) == Some(idx),
    decreases idx - i,
{
    if i < idx {
        assert(t.floating[i].id != t.floating[idx].id);
        lemma_place_of_id(t, idx, i + 1);
    }
}

/// What a tile remembers on leaving: the container it was in, and where in it.
proof fn lemma_remembered_slot(arena: ContainerArena, k: NodeKey)
    requires
        arena.wf(),
        arena@.has(k),
        arena@.parents.contains_key(k),
        !arena@.is_floating(k),
        arena@.parents[k] != arena@.root,
    ensures
        ({
            let t = arena@;
            let p = t.parents[k];
            let i = t.nodes[p].children.index_of(k);
            &&& 0 <= i < t.nodes[p].children.len() <= usize::MAX
            &&& t.nodes[p].children[i] == k
            &&& t.branch(k) == t.branch(p)
            &&& t.slot_at(t.branch(k), t.address(k)) == Some(
                Slot {
                    parent_path: t.address(p),
                    insert_idx: i as usize,
                    layout: t.nodes[p].layout,
                },
            )
        }),
{
    let t = arena@;
    let p = t.parents[k];
    law_child_lists_fit(arena);
    law_address_leads_back(t, p);
    lemma_branch_step(t, k);
    let kids = t.nodes[p].children;
    assert(kids.contains(k));
    assert(t.is_parent(p)) by {
        assert(kids.len() > 0);
    }
    let w = choose|i: int| 0 <= i < kids.len() && kids[i] == k;
    crate::walk::lemma_slot(t, p, k, w);
    assert(t.nodes.contains_key(p));
    let path = t.address(k);
    assert(path == t.address(p).push(kids.index_of(k) as usize));
    assert(path.drop_last() =~= t.address(p));
}

/// The root of a group with a window below it is a container.
proof fn lemma_group_of_several(t: Tree, k: NodeKey)
    requires
        t.wf(),
        t.has(k),
        t.in_float(k),
        !t.is_floating(k),
    ensures
        t.is_floating(t.branch(k)),
        t.branch(k) != k,
        t.parents.contains_key(k),
        t.parents[k] != t.root,
        t.is_parent(t.branch(k)),
{
    let root = t.branch(k);
    lemma_branch(t, k);
    lemma_floating_linked(t, k);
    lemma_branch_step(t, k);
    lemma_branch_of_float(t, root, k);
    let c = lemma_step_down(t, root, k);
    assert(t.nodes[root].children.contains(c)) by {
        assert(t.parents.contains_key(c));
        if t.is_floating(c) {
            lemma_branch_step(t, c);
        }
    }
    assert(t.nodes[root].children.len() > 0);
}

/// A group that is still there lost nothing but the window.
proof fn lemma_left_alone(t: Tree, k: NodeKey)
    requires
        t.wf(),
        t.window_gone(k).floating == t.floating,
        t.is_floating(t.branch(k)),
        t.window_left(k).is_floating(t.branch(k)),
    ensures
        t.window_left(k) == t.window_gone(k),
{
    let root = t.branch(k);
    let gone = t.window_gone(k);
    let u = t.window_left(k);
    if u != gone {
        let n = choose|n: int| 0 <= n < t.floating.len() && #[trigger] t.floating[n].key == root;
        assert(gone.floating[n].key == root);
        assert(gone.is_floating(root));
        let i = gone.stack_index(root);
        assert(u.floating == gone.floating.remove(i));
        let j = choose|j: int| 0 <= j < u.floating.len() && #[trigger] u.floating[j].key == root;
        let m = if j < i {
            j
        } else {
            j + 1
        };
        assert(u.floating[j] == t.floating[m]);
        assert(t.floating[m].key == t.floating[i].key);
    }
}

/// A window put back into the slot it left gives every node the children it had.
#[verifier::spinoff_prover]
proof fn lemma_slot_filled(t: Tree, u: Tree, k: NodeKey, tile: TileState, slot: Slot)
    requires
        t.wf(),
        u.wf(),
        t.is_view(k),
        t.parents.contains_key(k),
        !t.is_floating(k),
        t.is_parent(t.parents[k]),
        forall|q: NodeKey| #[trigger]
            t.nodes.contains_key(q) ==> t.nodes[q].children.len() <= usize::MAX,
        ({
            let p = t.parents[k];
            let kids = t.nodes[p].children;
            let at = kids.index_of(k);
            &&& u.nodes == t.nodes.insert(p, t.nodes[p].with_children(kids.remove(at))).remove(k)
            &&& 0 <= at < kids.len()
            &&& kids[at] == k
            &&& slot.parent_path == t.address(p)
            &&& slot.insert_idx == at
            &&& t.branch(p) == t.branch(k)
        }),
        u.parents == t.parents.remove(k),
        u.root == t.root,
        u.floating == t.floating,
        tile.key == k,
        tile.window.id == t.nodes[k].tile->0.window.id,
    ensures
        ({
            let v = u.tile_restored(t.branch(k), tile, false, slot);
            &&& v.wf()
            &&& v.parents == t.parents
            &&& v.floating == t.floating
            &&& forall|q: NodeKey| #[trigger] v.kids(q) == t.kids(q)
            &&& forall|q: NodeKey| #[trigger] v.holding(q) == t.holding(q)
        }),
{
    let root = t.branch(k);
    let p = t.parents[k];
    let kids = t.nodes[p].children;
    let at = kids.index_of(k);
    let asked = tile.floating_asked();
    assert(t.nodes.contains_key(k));
    lemma_added(u, k, Node::view_of(asked));
    let w = u.added(k, Node::view_of(asked));
    assert(p != k) by {
        lemma_depth(t.parents, k);
    }
    assert forall|q: NodeKey| q != p implies #[trigger] w.kids(q) == t.kids(q) by {
        if q == k {
            assert(t.kids(k) =~= Seq::empty());
            assert(w.kids(k) =~= Seq::empty());
        }
    }
    assert(t.under(p, p));
    lemma_way_down(t, w, p, p);
    assert(w.slot_parent(root, slot.parent_path) == Some(p));
    let x = w.linked_at(k, p, at);
    lemma_not_under_new(u, w, k, p);
    lemma_linked_at(w, k, p, at);
    lemma_resynced_wf(x);
    lemma_settled_shape(x, k, false);
    let y = w.joined_at_slot(root, slot, k, false);
    assert(y == x.settled_on(k, false));
    let v = u.tile_restored(root, tile, false, slot);
    assert(v == y.arranging_below(root)) by {
        reveal(Tree::tile_restored);
    }
    lemma_with_caches(y, v.caches);
    assert(v == y.with_caches(v.caches));
    assert(kids.remove(at).insert(at, k) =~= kids);
    assert(v.nodes[p].children == kids);
    assert(v.parents =~= t.parents);
    assert forall|q: NodeKey| #[trigger] v.kids(q) == t.kids(q) by {
        if q != p {
            assert(w.kids(q) == t.kids(q));
        }
    }
    assert forall|q: NodeKey| #[trigger] v.holding(q) == t.holding(q) by {}
}

/// A window taken out of a floating group that it shares, and put back by what its tile remembers:
/// as long as its container kept another child and its group is still there, the floating side
/// lists the same windows in the same order as before, and its groups are the same. The window is
/// held under the identity its tile has.
pub proof fn law_restored_where_it_was(arena: ContainerArena, id: WindowId)
    requires
        arena.wf(),
        arena@.groups_differ(),
        arena@.floating_window(id) is Some,
        ({
            let k = arena@.floating_window(id)->0;
            &&& arena@.nodes[k].tile->0.key == k
            &&& !arena@.is_floating(k)
            &&& arena@.nodes[arena@.parents[k]].children.len() >= 2
            &&& arena@.window_left(k).is_floating(arena@.branch(k))
        }),
    ensures
        ({
            let t = arena@;
            let k = t.floating_window(id)->0;
            let back = t.window_left(k).tile_back(t.leaving_tile(k));
            let listed = t.floating_leaves_from(0);
            &&& back is Some
            &&& back->0.floating == t.floating
            &&& back->0.floating_leaves_from(0) == listed
            &&& back->0.window_ids_of(listed) == t.window_ids_of(listed)
        }),
{
    let t = arena@;
    let k = t.floating_window(id)->0;
    lemma_first_of(t, t.seat.order, Pick::Window(id));
    lemma_group_of_several(t, k);
    lemma_remembered_slot(arena, k);
    lemma_window_gone_alone(t, k);
    law_child_lists_fit(arena);
    let root = t.branch(k);
    lemma_left_alone(t, k);
    let u = t.window_left(k);
    let idx = t.stack_index(root);
    assert(0 <= idx < t.floating.len() && t.floating[idx].key == root);
    lemma_place_of_id(u, idx, 0);
    let tile = t.leaving_tile(k);
    assert(u.hinted_root(tile.floating_reinsert_hint) == Some(root));
    let slot = tile.floating_reinsert_hint->0.info->0;
    let hintless = TileState { floating_reinsert_hint: None, ..tile };
    lemma_slot_filled(t, u, k, hintless, slot);
    let v = u.tile_restored(root, hintless, false, slot);
    assert(u.tile_back(tile) == Some(v));
    assert forall|q: NodeKey| #[trigger] v.is_view(q) == t.is_view(q) by {
        assert(v.holding(q) == t.holding(q));
    }
    lemma_floating_leaves_alike(t, v, 0);
    let listed = t.floating_leaves_from(0);
    assert forall|i: int| 0 <= i < listed.len() implies v.nodes[#[trigger] listed[i]].tile->0.window.id
        == t.nodes[listed[i]].tile->0.window.id by {
        assert(listed.contains(listed[i]));
        law_floating_windows_are_listed(t, listed[i]);
        assert(v.holding(listed[i]) == t.holding(listed[i]));
    }
    assert(v.window_ids_of(listed) =~= t.window_ids_of(listed));
}

/// Nothing is below a node that has just come.
proof fn lemma_not_under_new(t: Tree, u: Tree, k: NodeKey, p: NodeKey)
    requires
        t.wf(),
        !t.has(k),
        t.has(p),
        u.parents == t.parents,
    ensures
        !u.under(p, k),
    decreases depth(t.parents, p),
{
    if t.parents.contains_key(p) {
        lemma_depth(t.parents, p);
        lemma_not_under_new(t, u, k, t.parents[p]);
    }
}

} // verus!
