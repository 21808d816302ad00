//! How groups are stacked, and how they float and land.

use crate::axis::NodeKey;
use crate::focus::law_focused_window_is_most_recent;
use crate::tidying::{lemma_raw_focus_wf, lemma_reap_tidies};
use crate::space::{lemma_dialog_groups, lemma_window_found};
use crate::swap::lemma_stack_index;
use crate::tile::WindowId;
use crate::tree::{
    lemma_first_of, lemma_lineage, lemma_unlinked, lemma_with_seat, lineage, FloatingGeometry,
    FloatingRoot, FloatingRootKind, Pick, Tree,
};
use crate::walk::lemma_slot;
use vstd::prelude::*;

verus! {

impl Tree {
    /// Whether the group at place `j` holds a dialog of a window of the group at place `i`.
    pub open spec fn dialog_groups_of(self, i: int, j: int) -> bool {
        exists|w: NodeKey, d: NodeKey|
            {
                &&& #[trigger] self.leaves(self.floating[i].key).contains(w)
                &&& #[trigger] self.leaves(self.floating[j].key).contains(d)
                &&& self.nodes[d].tile->0.window.parent == Some(self.nodes[w].tile->0.window.id)
            }
    }
}

/// What raising some places of the stack in turn comes to.
proof fn lemma_raised_places(t: Tree, groups: Seq<int>, to: int)
    requires
        0 <= to,
        forall|j: int| 0 <= j < groups.len() ==> to < #[trigger] groups[j] < t.floating.len(),
        forall|i: int, j: int|
            0 <= i < j < groups.len() ==> (#[trigger] groups[i]) < #[trigger] groups[j],
    ensures
        ({
            let u = t.raised_to(groups, to);
            &&& u.floating.len() == t.floating.len()
            &&& forall|j: int|
                0 <= j < groups.len() ==> #[trigger] u.floating[to + j] == t.floating[groups[j]]
            &&& to < t.floating.len() ==> u.floating[to + groups.len()] == t.floating[to]
            &&& forall|n: int| 0 <= n < to ==> #[trigger] u.floating[n] == t.floating[n]
        }),
    decreases groups.len(),
{
    if groups.len() > 0 {
        assert(to < groups[0]);
        let s = t.restacked(groups[0], to);
        let rest = groups.drop_first();
        assert forall|j: int| 0 <= j < rest.len() implies to + 1 < #[trigger] rest[j]
            < s.floating.len() by {
            assert(groups[0] < groups[j + 1]);
        }
        assert forall|i: int, j: int| 0 <= i < j < rest.len() implies (#[trigger] rest[i])
            < #[trigger] rest[j] by {
            assert(groups[i + 1] < groups[j + 1]);
        }
        lemma_raised_places(s, rest, to + 1);
        let u = t.raised_to(groups, to);
        assert(s.floating[to] == t.floating[groups[0]]);
        assert(s.floating[to + 1] == t.floating[to]);
        assert forall|j: int| 0 <= j < groups.len() implies #[trigger] u.floating[to + j]
            == t.floating[groups[j]] by {
            if j > 0 {
                assert(rest[j - 1] == groups[j]);
                assert(u.floating[to + 1 + (j - 1)] == s.floating[rest[j - 1]]);
                assert(groups[0] < groups[j]);
                assert(s.floating[groups[j]] == t.floating[groups[j]]);
            } else {
                assert(u.floating[to] == s.floating[to]);
            }
        }
        assert(u.floating[to + 1 + rest.len()] == s.floating[to + 1]);
    }
}

/// The groups found to hold dialogs: in the order of the stack, each one that holds a dialog of a
/// window seen among them.
proof fn lemma_dialogs_found(t: Tree, idx: int, i: int, seen: Seq<WindowId>)
    requires
        0 <= idx,
        i < t.floating.len(),
    ensures
        ({
            let found = t.dialog_groups(idx, i, seen);
            &&& forall|j: int| 0 <= j < found.len() ==> idx < #[trigger] found[j] <= i
            &&& forall|a: int, b: int|
                0 <= a < b < found.len() ==> (#[trigger] found[a]) < #[trigger] found[b]
            &&& forall|n: int|
                idx < n <= i && #[trigger] t.dialog_of(t.floating[n].key, seen) ==> found.contains(
                    n,
                )
        }),
    decreases i - idx,
{
    if i > idx {
        let root = t.floating[i].key;
        if t.dialog_of(root, seen) {
            let more = seen + t.group_ids(root);
            lemma_dialogs_found(t, idx, i - 1, more);
            let front = t.dialog_groups(idx, i - 1, more);
            let found = front.push(i);
            assert(t.dialog_groups(idx, i, seen) == found);
            assert forall|j: int| 0 <= j < found.len() implies idx < #[trigger] found[j] <= i by {
                if j < front.len() {
                    assert(found[j] == front[j]);
                }
            }
            assert forall|a: int, b: int| 0 <= a < b < found.len() implies (#[trigger] found[a])
                < #[trigger] found[b] by {
                assert(found[a] == front[a]);
                if b < front.len() {
                    assert(found[b] == front[b]);
                }
            }
            assert forall|n: int|
                idx < n <= i && #[trigger] t.dialog_of(t.floating[n].key, seen) implies found.contains(
                n,
            ) by {
                if n < i {
                    lemma_dialog_of_more(t, t.floating[n].key, seen, t.group_ids(root));
                    let j = choose|j: int| 0 <= j < front.len() && front[j] == n;
                    assert(found[j] == n);
                } else {
                    assert(found[front.len() as int] == n);
                }
            }
        } else {
            lemma_dialogs_found(t, idx, i - 1, seen);
            assert(t.dialog_groups(idx, i, seen) == t.dialog_groups(idx, i - 1, seen));
            assert forall|n: int|
                idx < n <= i && #[trigger] t.dialog_of(t.floating[n].key, seen) implies t.dialog_groups(
                idx,
                i,
                seen,
            ).contains(n) by {
                assert(n != i);
            }
        }
    }
}

proof fn lemma_dialog_of_more(t: Tree, root: NodeKey, seen: Seq<WindowId>, more: Seq<WindowId>)
    requires
        t.dialog_of(root, seen),
    ensures
        t.dialog_of(root, seen + more),
{
    let i = choose|i: int|
        0 <= i < t.leaves(root).len() && (
        t.nodes[#[trigger] t.leaves(root)[i]].tile->0.window.parent matches Some(p)
            && seen.contains(p));
    let p = t.nodes[t.leaves(root)[i]].tile->0.window.parent->0;
    let j = choose|j: int| 0 <= j < seen.len() && seen[j] == p;
    assert((seen + more)[j] == p);
    assert((seen + more).contains(p));
}

/// A group that is raised comes above every group that does not hold dialogs, and the groups with
/// dialogs of its windows come above it.
pub proof fn law_raised_group_is_below_its_dialogs_only(t: Tree, idx: int, j: int)
    requires
        t.wf(),
        0 <= idx < t.floating.len(),
        0 <= j < t.floating.len(),
        j != idx,
        t.dialog_groups_of(idx, j),
    ensures
        exists|a: int, b: int|
            0 <= a < b < t.floating.len() && #[trigger] t.raised(idx).floating[a] == t.floating[j]
                && #[trigger] t.raised(idx).floating[b] == t.floating[idx],
{
    let u = t.restacked(idx, 0);
    crate::floats::lemma_moved_stack(t, idx, 0);
    let key = t.floating[idx].key;
    let seen = u.group_ids(u.floating[0].key);
    let n = if j < idx {
        j + 1
    } else {
        j
    };
    assert(u.floating[0] == t.floating[idx]);
    assert(u.floating[n] == t.floating[j]);
    lemma_dialogs_found(u, 0, u.floating.len() - 1, seen);
    let groups = u.dialog_groups(0, u.floating.len() - 1, seen);
    let (w, d) = choose|w: NodeKey, d: NodeKey|
        {
            &&& #[trigger] t.leaves(t.floating[idx].key).contains(w)
            &&& #[trigger] t.leaves(t.floating[j].key).contains(d)
            &&& t.nodes[d].tile->0.window.parent == Some(t.nodes[w].tile->0.window.id)
        };
    crate::restore::lemma_leaves_alike(t, u, t.floating[idx].key);
    crate::restore::lemma_leaves_alike(t, u, t.floating[j].key);
    let mine = u.leaves(t.floating[idx].key);
    let theirs = u.leaves(t.floating[j].key);
    let a = choose|a: int| 0 <= a < mine.len() && mine[a] == w;
    let b = choose|b: int| 0 <= b < theirs.len() && theirs[b] == d;
    assert(seen[a] == t.nodes[w].tile->0.window.id);
    assert(seen.contains(t.nodes[w].tile->0.window.id));
    assert(u.nodes[u.leaves(t.floating[j].key)[b]].tile->0.window.parent == Some(seen[a]));
    assert(u.dialog_of(u.floating[n].key, seen));
    assert(groups.contains(n));
    let at = choose|at: int| 0 <= at < groups.len() && groups[at] == n;
    lemma_raised_places(u, groups, 0);
    lemma_dialog_groups(u, 0, u.floating.len() - 1, seen);
    let v = t.raised(idx);
    assert(v.floating[0 + at] == u.floating[groups[at]]);
    assert(v.floating[0int + groups.len()] == u.floating[0]);
    assert(v.floating[at] == t.floating[j] && v.floating[groups.len() as int]
        == t.floating[idx]);
}

/// Without dialogs a group that is raised is on top, and the others keep their order.
pub proof fn law_raised_group_is_on_top(t: Tree, idx: int)
    requires
        t.wf(),
        0 <= idx < t.floating.len(),
        forall|j: int| 0 <= j < t.floating.len() && j != idx ==> !t.dialog_groups_of(idx, j),
    ensures
        t.raised(idx).floating == seq![t.floating[idx]] + t.floating.remove(idx),
{
    let u = t.restacked(idx, 0);
    crate::floats::lemma_moved_stack(t, idx, 0);
    let seen = u.group_ids(u.floating[0].key);
    assert(u.floating[0] == t.floating[idx]);
    crate::restore::lemma_leaves_alike(t, u, t.floating[idx].key);
    assert forall|n: int| 0 < n < u.floating.len() implies !#[trigger] u.dialog_of(
        u.floating[n].key,
        seen,
    ) by {
        let j = if n <= idx {
            n - 1
        } else {
            n
        };
        assert(u.floating[n] == t.floating[j]);
        crate::restore::lemma_leaves_alike(t, u, t.floating[j].key);
        if u.dialog_of(u.floating[n].key, seen) {
            let theirs = u.leaves(u.floating[n].key);
            let b = choose|b: int|
                0 <= b < theirs.len() && (
                u.nodes[#[trigger] theirs[b]].tile->0.window.parent matches Some(p)
                    && seen.contains(p));
            let p = u.nodes[theirs[b]].tile->0.window.parent->0;
            let a = choose|a: int| 0 <= a < seen.len() && seen[a] == p;
            let mine = u.leaves(t.floating[idx].key);
            assert(t.leaves(t.floating[idx].key).contains(mine[a]));
            assert(t.leaves(t.floating[j].key).contains(theirs[b]));
            assert(t.dialog_groups_of(idx, j));
        }
    }
    lemma_no_dialogs(u, 0, u.floating.len() - 1, seen);
    assert(t.raised(idx).floating =~= seq![t.floating[idx]] + t.floating.remove(idx));
}

pub(crate) proof fn lemma_no_dialogs(t: Tree, idx: int, i: int, seen: Seq<WindowId>)
    requires
        forall|n: int| idx < n <= i ==> !#[trigger] t.dialog_of(t.floating[n].key, seen),
    ensures
        t.dialog_groups(idx, i, seen).len() == 0,
    decreases i - idx,
{
    if i > idx {
        assert(!t.dialog_of(t.floating[i].key, seen));
        lemma_no_dialogs(t, idx, i - 1, seen);
    }
}

/// A floating window that is activated has the focus, and its group is raised.
pub proof fn law_activation_focuses_and_raises(t: Tree, id: WindowId)
    requires
        t.wf(),
        t.floating_window(id) is Some,
    ensures
        t.activated(id).1,
        t.activated(id).0.seat.leaf == t.floating_window(id),
        t.activated(id).0.seat.selected is None,
        t.activated(id).0.floating == t.raised(t.group_of(id)->0).floating,
        t.floating[t.group_of(id)->0].key == t.branch(t.floating_window(id)->0),
        0 <= t.group_of(id)->0 < t.floating.len(),
{
    let k = t.floating_window(id)->0;
    lemma_window_found(t, id);
    assert(t.is_floating(t.branch(k)));
    let idx = t.stack_index(t.branch(k));
    assert(0 <= idx < t.floating.len() && t.floating[idx].key == t.branch(k));
    crate::steering::lemma_raised(t, idx);
    let a = t.raised(idx);
    let b = a.with_seat(a.seat.with_selected(None));
    lemma_with_seat(a, b.seat);
    assert forall|x: NodeKey| #[trigger] b.holding(x) == t.holding(x) by {}
    crate::sides::lemma_first_window_alike(t, b, t.seat.order, id);
    law_focused_window_is_most_recent(b, k);
}

/// The place a dialog is put at is never below a window it is a dialog of, and not above any group
/// that comes before that.
pub proof fn law_dialogs_are_put_above_their_windows(
    t: Tree,
    parent: WindowId,
    idx: int,
    i: int,
)
    requires
        0 <= i < t.floating.len(),
        0 <= idx,
        t.group_ids(t.floating[i].key).contains(parent),
    ensures
        t.above_parent(Some(parent), idx, 0) <= i || t.above_parent(Some(parent), idx, 0) == idx
            && idx <= i,
        0 <= t.above_parent(Some(parent), idx, 0) <= idx,
        forall|j: int|
            0 <= j < t.above_parent(Some(parent), idx, 0) && j < t.floating.len()
                ==> !#[trigger] t.group_ids(t.floating[j].key).contains(parent),
{
    lemma_above_parent(t, parent, idx, 0);
    let r = t.above_parent(Some(parent), idx, 0);
    if i < r {
        assert(!t.group_ids(t.floating[i].key).contains(parent));
    }
}

proof fn lemma_above_parent(t: Tree, parent: WindowId, idx: int, i: int)
    requires
        0 <= i <= idx,
    ensures
        i <= t.above_parent(Some(parent), idx, i) <= idx,
        forall|j: int|
            i <= j < t.above_parent(Some(parent), idx, i) && j < t.floating.len()
                ==> !#[trigger] t.group_ids(t.floating[j].key).contains(parent),
        t.above_parent(Some(parent), idx, i) < idx ==> t.above_parent(Some(parent), idx, i)
            < t.floating.len() && t.group_ids(
            t.floating[t.above_parent(Some(parent), idx, i)].key,
        ).contains(parent),
    decreases idx - i,
{
    if i < idx && i < t.floating.len() && !t.group_ids(t.floating[i].key).contains(parent) {
        lemma_above_parent(t, parent, idx, i + 1);
    }
}

// ---------------------------------------------------------------------------------------------
// Floating and landing
// ---------------------------------------------------------------------------------------------

/// A tiled node that is floated is a group at the place asked for, with the box and the kind asked
/// for and an id no group had, and its former list is without it.
pub proof fn law_floated_node_is_a_group(
    t: Tree,
    k: NodeKey,
    geometry: FloatingGeometry,
    at: int,
    kind: FloatingRootKind,
    p: NodeKey,
    i: int,
)
    requires
        t.wf(),
        t.sits(k, p, i),
        0 <= at <= t.floating.len(),
        t.next_floating_id < u64::MAX,
    ensures
        ({
            let u = t.subtree_floated(k, geometry, at, kind);
            &&& u.wf()
            &&& u.floating == t.floating.insert(
                at,
                FloatingRoot { id: t.next_floating_id, key: k, kind, geometry },
            )
            &&& u.has(p) ==> !u.nodes[p].children.contains(k)
            &&& t.is_view(k) ==> u.is_view(k)
            &&& forall|x: NodeKey| #[trigger] t.is_view(x) ==> u.is_view(x)
        }),
{
    assert(t.is_parent(p));
    lemma_slot(t, p, k, i);
    crate::swap::lemma_listed_not_floating(t, k);
    let a = t.superseded();
    crate::leafcache::lemma_with_caches(t, a.caches);
    assert(!a.is_floating(k)) by {
        if a.is_floating(k) {
            let j = choose|j: int| 0 <= j < a.floating.len() && #[trigger] a.floating[j].key == k;
            assert(t.floating[j].key == k);
        }
    }
    lemma_unlinked(a, k);
    let b = a.unlinked(k);
    let entry = FloatingRoot { id: t.next_floating_id, key: k, kind, geometry };
    let c = b.registered(k, geometry, at, kind);
    crate::tree::lemma_floated(b, entry, at);
    assert(c.wf()) by {
        crate::tree::lemma_same_shape(b.floated(entry, at), c);
    }
    assert(c.has(p) && c.has(k));
    lemma_raw_focus_wf(c, p);
    let d = c.with_seat(c.seat.raw_focus(p));
    lemma_raw_focus_wf(d, k);
    let e = if t.seat.node() == Some(k) {
        d.with_seat(d.seat.raw_focus(k))
    } else {
        c
    };
    lemma_lineage(e.parents, p);
    lemma_reap_tidies(e, lineage(e.parents, p));
    let f = e.reaped(p);
    crate::leafcache::lemma_with_caches(f, f.readdressed().caches);
    let u = t.subtree_floated(k, geometry, at, kind);
    assert(u == f.readdressed());
    if u.has(p) && u.nodes[p].children.contains(k) {
        let j = choose|j: int| 0 <= j < u.nodes[p].children.len() && u.nodes[p].children[j] == k;
        assert(u.parents[u.nodes[p].children[j]] == p);
        assert(u.floating[at].key == k);
        assert(u.parents[u.floating[at].key] == u.root);
        assert(!u.nodes[u.root].children.contains(u.floating[at].key));
    }
    assert forall|x: NodeKey| #[trigger] t.is_view(x) implies u.is_view(x) by {
        assert(b.is_view(x));
        assert(e.is_view(x));
    }
}

/// A group that lands in a list stands at the place asked for, and is off the stack; the other
/// groups keep their order.
pub proof fn law_landed_group_is_tiled(t: Tree, n: int, p: NodeKey, idx: int)
    requires
        t.wf(),
        0 <= n < t.floating.len(),
        t.is_parent(p),
        0 <= idx <= t.nodes[p].children.len(),
        t.implicit_child(t.floating[n].key) is None,
    ensures
        ({
            let k = t.floating[n].key;
            let u = t.placed(k, p, idx).0;
            &&& t.placed(k, p, idx).1
            &&& u.floating == t.floating.remove(n)
            &&& u.nodes[p].children == t.nodes[p].children.insert(idx, k)
        }),
{
    let k = t.floating[n].key;
    lemma_stack_index(t, k, n);
    let u = t.placed(k, p, idx).0;
    assert(t.kids(p) == t.nodes[p].children);
}

/// A group that goes back without a node to go to is the last child of the workspace; one that goes
/// back to a tiled window stands right after it, one that goes back to a container is its last.
pub proof fn law_groups_land_where_they_are_sent(t: Tree, n: int, r: NodeKey, p: NodeKey, i: int)
    requires
        t.wf(),
        0 <= n < t.floating.len(),
        t.implicit_child(t.floating[n].key) is None,
        t.sits(r, p, i),
        t.branch(r) == t.root,
    ensures
        ({
            let k = t.floating[n].key;
            let end = t.placed_at_end(k).0;
            let by = t.placed_by(k, r).0;
            &&& end.nodes[t.root].children == t.nodes[t.root].children.push(k)
            &&& end.floating == t.floating.remove(n)
            &&& by.floating == t.floating.remove(n)
            &&& t.is_view(r) ==> by.nodes[p].children == t.nodes[p].children.insert(i + 1, k)
            &&& !t.is_view(r) ==> by.nodes[r].children == t.nodes[r].children.push(k)
        }),
{
    let k = t.floating[n].key;
    assert(t.is_parent(p));
    lemma_slot(t, p, r, i);
    crate::swap::lemma_listed_not_floating(t, r);
    lemma_stack_index(t, k, n);
    assert(t.nodes.contains_key(r));
    lemma_seeded(t, k, t.nodes[t.root].geometry.size);
    lemma_seeded(t, k, t.box_of(r)->0.size);
    let a = t.seeded(k, t.nodes[t.root].geometry.size);
    let b = t.seeded(k, t.box_of(r)->0.size);
    crate::swap::lemma_same_frame(t, a, k);
    crate::swap::lemma_same_frame(t, b, k);
    assert(a.has(t.root) && b.has(r) && b.has(p)) by {
        assert(t.has(t.root) && t.has(r) && t.has(p));
    }
    crate::trades::lemma_frame_wf(t, a);
    crate::trades::lemma_frame_wf(t, b);
    assert(a.implicit_child(k) is None) by {
        lemma_implicit_alike(t, a, k);
    }
    assert(b.implicit_child(k) is None) by {
        lemma_implicit_alike(t, b, k);
    }
    let kids = t.nodes[t.root].children;
    assert(a.nodes[t.root].children == kids);
    law_landed_group_is_tiled(a, n, t.root, kids.len() as int);
    assert(kids.insert(kids.len() as int, k) =~= kids.push(k));
    if t.is_view(r) {
        assert(b.nodes[p].children == t.nodes[p].children);
        law_landed_group_is_tiled(b, n, p, i + 1);
    } else {
        let mine = t.nodes[r].children;
        assert(b.nodes[r].children == mine);
        law_landed_group_is_tiled(b, n, r, mine.len() as int);
        assert(mine.insert(mine.len() as int, k) =~= mine.push(k));
    }
}

pub(crate) proof fn lemma_seeded(t: Tree, k: NodeKey, size: crate::measure::Size)
    ensures
        crate::swap::same_frame(t, t.seeded(k, size)),
        forall|x: NodeKey|
            (#[trigger] t.seeded(k, size).nodes[x]).user_created == t.nodes[x].user_created,
{
}

pub(crate) proof fn lemma_implicit_alike(t: Tree, u: Tree, k: NodeKey)
    requires
        t.wf(),
        crate::swap::same_frame(t, u),
        forall|x: NodeKey| (#[trigger] u.nodes[x]).user_created == t.nodes[x].user_created,
        t.is_floating(k),
    ensures
        u.implicit_child(k) is Some <==> t.implicit_child(k) is Some,
{
    crate::swap::lemma_same_frame(t, u, k);
    assert(u.has(k) <==> t.has(k));
    let i = t.stack_index(k);
    assert(t.floating[i].key == k);
    assert(t.parents.contains_key(t.floating[i].key));
    assert(t.has(k));
}

/// Moving an entry of the stack puts it at the place asked for; the others keep their order.
pub proof fn law_restacked_entry_is_in_place(t: Tree, from: int, to: int, n: int)
    requires
        0 <= from < t.floating.len(),
        0 <= to < t.floating.len(),
        0 <= n < t.floating.len() - 1,
    ensures
        t.restacked(from, to).floating.len() == t.floating.len(),
        t.restacked(from, to).floating[to] == t.floating[from],
        t.restacked(from, to).floating.remove(to)[n] == t.floating.remove(from)[n],
{
}

} // verus!
