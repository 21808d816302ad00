//! What the commands on groups, columns and fullscreen come to.

use crate::axis::{Direction, Layout, NodeKey, ResizeReach};
use crate::bearings::{law_landing_focuses_a_window, runs, sign};
use crate::cache::{LeafInfo, Pending};
use crate::focus::law_focused_window_is_most_recent;
use crate::measure::{NodeSizing, Real, Rect};
use crate::node::Node;
use crate::resize::ResizeEdge;
use crate::swap::{lemma_same_frame, lemma_stack_index, same_frame};
use crate::tile::{TileRequest, TileState, WindowId};
use crate::trades::lemma_frame_wf;
use crate::tree::{
    depth, lemma_added, lemma_depth, lemma_first_of, lemma_under_depth, lemma_under_trans,
    FloatingRoot, Pick, Tree,
};
use crate::walk::lemma_slot;
use vstd::prelude::*;

verus! {

// ---------------------------------------------------------------------------------------------
// From group to group
// ---------------------------------------------------------------------------------------------

/// The list of groups runs from the bottom of the stack up, the way the workspace does: to the
/// right or down is one place higher on the stack, to the left or up one place lower, and a step
/// that may wrap goes from either end to the other. Across the workspace there is no step.
pub proof fn law_groups_beside_each_other(t: Tree, idx: int, d: Direction, wrap: bool)
    requires
        0 <= idx < t.floating.len(),
    ensures
        ({
            let n = t.floating.len() as int;
            let along = n > 1 && runs(t.nodes[t.root].layout, d);
            let next = idx - sign(d);
            &&& !along ==> t.group_beside(idx, d, wrap) is None
            &&& along && 0 <= next < n ==> t.group_beside(idx, d, wrap) == Some((next, false))
            &&& along && !(0 <= next < n) && wrap ==> t.group_beside(idx, d, wrap) == Some(
                (
                    if sign(d) > 0 {
                        n - 1
                    } else {
                        0
                    },
                    true,
                ),
            )
            &&& along && !(0 <= next < n) && !wrap ==> t.group_beside(idx, d, wrap) is None
        }),
{
}

/// Going through the stack activates the next group below, from the lowest the highest; or the next
/// above, from the highest the lowest.
pub proof fn law_stack_is_gone_through(t: Tree, idx: int)
    requires
        t.active_group() == Some(idx),
        0 <= idx < t.floating.len(),
        t.floating.len() > 1,
    ensures
        idx + 1 < t.floating.len() ==> t.stack_stepped(true) == t.group_activated(idx + 1),
        idx + 1 == t.floating.len() ==> t.stack_stepped(true) == t.group_activated(0),
        idx > 0 ==> t.stack_stepped(false) == t.group_activated(idx - 1),
        idx == 0 ==> t.stack_stepped(false) == t.group_activated(t.floating.len() - 1),
{
}

/// A group that is activated is raised, and the focus is on the window of it that was focused last.
pub proof fn law_activated_group_has_the_focus(t: Tree, idx: int, k: NodeKey)
    requires
        t.wf(),
        t.windows_differ(),
        0 <= idx < t.floating.len(),
        t.branch_view(t.floating[idx].key) == Some(k),
        t.is_view(k),
        t.branch(k) == t.floating[idx].key,
    ensures
        t.group_activated(idx).1,
        t.group_activated(idx).0.seat.leaf == Some(k),
        t.group_activated(idx).0.floating == t.raised(idx).floating,
{
    let id = t.nodes[k].tile->0.window.id;
    let root = t.floating[idx].key;
    lemma_stack_index(t, root, idx);
    lemma_first_of(t, t.seat.order, Pick::Window(id));
    assert(t.seat.order.contains(k));
    let j = choose|j: int| 0 <= j < t.seat.order.len() && t.seat.order[j] == k;
    assert(t.meets(Pick::Window(id), t.seat.order[j]));
    let found = t.recent(Pick::Window(id))->0;
    crate::windows::lemma_windows(t, found);
    crate::windows::lemma_windows(t, k);
    assert(t.windows()[found] == t.windows()[k]);
    crate::stacks::law_activation_focuses_and_raises(t, id);
}

/// A group that is stepped to is raised, and the focus is on a window of it.
pub proof fn law_stepped_group_has_the_focus(t: Tree, idx: int, w: NodeKey)
    requires
        t.wf(),
        0 <= idx < t.floating.len(),
        t.is_view(w),
        t.under(w, t.floating[idx].key),
    ensures
        t.root_focused(idx, true).floating == t.raised(idx).floating,
        t.root_focused(idx, true).seat.leaf matches Some(l) && t.is_view(l) && t.under(
            l,
            t.floating[idx].key,
        ),
        !t.is_view(t.floating[idx].key) ==> t.root_focused(idx, false).seat.selected == Some(
            t.floating[idx].key,
        ),
{
    let root = t.floating[idx].key;
    crate::steering::lemma_raised(t, idx);
    let u = t.raised(idx);
    crate::bearings::lemma_inactive_view(t, root, w);
    let k = t.inactive_view(root)->0;
    law_focused_window_is_most_recent(u, k);
    assert(t.parents.contains_key(t.floating[idx].key));
    assert(t.has(root));
    assert(root != t.root);
    assert(t.nodes.contains_key(root));
    assert(u.is_view(root) == t.is_view(root));
}

/// A command aimed at a branch stands on the selection if that is in it, else on the focused window
/// if that is in it, else on the window of it that was focused last.
pub proof fn law_where_a_command_stands(t: Tree, branch: NodeKey, k: NodeKey)
    requires
        t.wf(),
        t.branch(k) == branch,
    ensures
        t.seat.selected == Some(k) ==> t.target_in(branch) == k,
        t.seat.selected is None && t.seat.leaf == Some(k) ==> t.target_in(branch) == k,
        t.seat.selected is None && t.seat.leaf is None && t.is_view(k) && !t.is_view(branch)
            ==> t.is_view(t.target_in(branch)) && t.branch(t.target_in(branch)) == branch,
{
    let pick = Pick::ViewInBranch(branch);
    lemma_first_of(t, t.seat.order, pick);
    if t.is_view(k) {
        assert(t.seat.order.contains(k));
        let j = choose|j: int| 0 <= j < t.seat.order.len() && t.seat.order[j] == k;
        assert(t.meets(pick, t.seat.order[j]));
    }
}

/// The layout told of where a command stands is that of the container it stands on, or of the one
/// around the window it stands on.
pub proof fn law_layout_where_a_command_stands(t: Tree, branch: NodeKey)
    requires
        t.wf(),
        t.has(t.target_in(branch)),
    ensures
        ({
            let k = t.target_in(branch);
            &&& !t.is_view(k) ==> t.standing_layout(branch) == Some(t.nodes[k].layout)
            &&& t.is_view(k) && t.parents.contains_key(k) && !t.is_view(t.parents[k])
                ==> t.standing_layout(branch) == Some(t.nodes[t.parents[k]].layout)
        }),
{
    let k = t.target_in(branch);
    if t.parents.contains_key(k) {
        assert(t.has(t.parents[k]));
    }
}

/// A window that is a whole group and is split goes into a container that takes its place on the
/// stack, under the same id and with the same geometry, laid out as asked.
pub proof fn law_split_of_a_lone_group(t: Tree, layout: Layout, n: int)
    requires
        t.wf(),
        0 <= n < t.floating.len(),
        t.is_view(t.floating[n].key),
        t.target_in(t.floating[n].key) == t.floating[n].key,
        t.next_key < u64::MAX,
    ensures
        ({
            let k = t.floating[n].key;
            let w = NodeKey { id: t.next_key };
            let u = t.group_split(k, layout);
            &&& u.floating == t.floating.update(n, FloatingRoot { key: w, ..t.floating[n] })
            &&& u.nodes[w].children == seq![k]
            &&& u.nodes[w].layout == layout
            &&& u.is_view(k)
        }),
{
    reveal(Tree::group_split);
    let k = t.floating[n].key;
    lemma_stack_index(t, k, n);
    let w = NodeKey { id: t.next_key };
    let node = Tree::asked_for(layout);
    let own = Node { geometry: t.box_of(k)->0, ..node };
    let a = t.added(w, own).unfloated(n).linked_at(k, w, 0).floated(
        FloatingRoot { key: w, ..t.floating[n] },
        n,
    );
    assert(a.floating =~= t.floating.update(n, FloatingRoot { key: w, ..t.floating[n] }));
    assert(!t.has(w)) by {
        if t.has(w) {
            assert(t.nodes.contains_key(w));
        }
    }
    assert(Seq::<NodeKey>::empty().insert(0, k) =~= seq![k]);
    assert(a.nodes[w].children =~= seq![k]);
    crate::layouts::lemma_moved_frame(a, k, w);
    crate::links::lemma_fullscreen_moved_keeps(a, k, w);
    let b = a.fullscreen_moved(k, w);
    assert(b.nodes[w].layout == a.nodes[w].layout);
    assert(a.has(k));
    assert(b.has(k) == a.has(k));
    assert(b.floating == a.floating) by {
        reveal(Tree::fullscreen_moved);
    }
    assert(b.nodes[k].children == a.nodes[k].children);
}

/// The window a node leads to is below it, and every container on the way shows what leads there.
pub proof fn law_a_node_leads_along_what_it_shows(t: Tree, k: NodeKey, c: NodeKey)
    requires
        t.wf(),
        t.leaf_under(k) is Some,
        t.under(t.leaf_under(k)->0, c),
        t.under(c, k),
        c != k,
    ensures
        t.is_view(t.leaf_under(k)->0),
        t.under(t.leaf_under(k)->0, k),
        t.parents.contains_key(c),
        t.active(t.parents[c]) == Some(c),
    decreases crate::tree::room(t.parents, k),
{
    crate::insert::lemma_leaf_below(t, k);
    if !t.is_view(k) {
        let x = t.active(k)->0;
        crate::tree::lemma_active(t, k);
        lemma_depth(t.parents, x);
        assert(t.leaf_under(x) == t.leaf_under(k));
        crate::insert::lemma_leaf_below(t, x);
        if c != x {
            crate::tree::lemma_under_chain(t.parents, t.leaf_under(k)->0, x, c);
            if t.under(x, c) {
                assert(t.under(k, c));
                lemma_under_depth(t.parents, k, c);
                lemma_under_depth(t.parents, c, k);
            }
            law_a_node_leads_along_what_it_shows(t, x, c);
        }
    } else {
        assert(t.leaf_under(k) == Some(k));
        lemma_under_depth(t.parents, k, c);
        lemma_under_depth(t.parents, c, k);
    }
}

/// The active window of the floating side is the focused one if that floats, else the floating one
/// that was focused last.
pub proof fn law_active_floating_window(t: Tree, k: NodeKey, a: int, b: int)
    requires
        t.wf(),
        t.is_view(k),
        t.in_float(k),
        0 <= a < t.seat.order.len(),
        0 <= b < t.seat.order.len(),
        t.seat.order[b] == k,
        t.active_floating() == Some(t.seat.order[a]),
    ensures
        t.seat.leaf == Some(k) ==> t.seat.order[a] == k,
        t.is_view(t.seat.order[a]) && t.in_float(t.seat.order[a]),
        t.seat.leaf is None ==> a <= b,
        t.active_id() == Some(t.nodes[t.seat.order[a]].tile->0.window.id),
{
    let pick = Pick::FloatingView;
    lemma_first_of(t, t.seat.order, pick);
    assert(t.meets(pick, t.seat.order[b]));
    let c = t.recent(pick)->0;
    let n = choose|n: int|
        0 <= n < t.seat.order.len() && t.seat.order[n] == c && forall|m: int|
            0 <= m < n ==> !t.meets(pick, #[trigger] t.seat.order[m]);
    if t.seat.leaf is None {
        assert(t.seat.order[n] == t.seat.order[a]);
        assert(t.seat.order.no_duplicates());
        if b < n {
            assert(!t.meets(pick, t.seat.order[b]));
        }
    }
}

/// Something is active on the floating side whenever a window floats.
pub proof fn law_something_floating_is_active(t: Tree, k: NodeKey)
    requires
        t.wf(),
        t.is_view(k),
        t.in_float(k),
    ensures
        t.active_floating() is Some,
{
    let pick = Pick::FloatingView;
    lemma_first_of(t, t.seat.order, pick);
    assert(t.seat.order.contains(k));
    let j = choose|j: int| 0 <= j < t.seat.order.len() && t.seat.order[j] == k;
    assert(t.meets(pick, t.seat.order[j]));
}

/// Commands stand on the selection, else on the focused window.
pub proof fn law_commands_stand_on_the_selection(t: Tree, s: NodeKey, l: NodeKey)
    requires
        t.has(s),
        t.has(l),
    ensures
        t.seat.selected == Some(s) ==> t.selected_node() == Some(s),
        t.seat.selected is None && t.seat.leaf == Some(l) ==> t.selected_node() == Some(l)
            && t.effective_focus() == Some(l),
{
}

// ---------------------------------------------------------------------------------------------
// Fullscreen
// ---------------------------------------------------------------------------------------------

/// The node fullscreen is given to owns it, with its box kept for later; with nothing named nobody
/// owns it. The former owner keeps nothing.
pub proof fn law_fullscreen_has_one_owner(t: Tree, k: NodeKey)
    requires
        t.is_container(k),
        k != t.root,
        t.fullscreen != Some(k),
    ensures
        t.owned_by(Some(k)).fullscreen == Some(k),
        t.fullscreen is None ==> t.owned_by(Some(k)).nodes[k].own_sizing().fullscreen_restore_geometry
            == t.box_of(k),
        t.owned_by(None).fullscreen is None,
        t.fullscreen matches Some(f) && t.is_container(f) ==> t.owned_by(
            Some(k),
        ).nodes[t.fullscreen->0].own_sizing().fullscreen_restore_geometry is None && t.owned_by(
            None,
        ).nodes[t.fullscreen->0].own_sizing().fullscreen_restore_geometry is None,
{
}

/// Fullscreen handed from a window to another: that one owns it and is asked to fill the output,
/// the former is asked for the working area.
pub proof fn law_fullscreen_is_handed_over(t: Tree, from: NodeKey, to: NodeKey)
    requires
        t.fullscreen == Some(from),
        t.is_view(from),
        t.is_view(to),
        from != to,
    ensures
        ({
            let u = t.fullscreen_moved(from, to);
            let animate = !t.options.animations_off;
            &&& u.fullscreen == Some(to)
            &&& u.nodes[to].tile->0.request == Some(TileRequest::Fullscreen { animate })
            &&& u.nodes[from].tile->0.request == Some(
                TileRequest::TileSize { tile_size: t.options.working_area.size, animate },
            )
        }),
        t.fullscreen_moved(to, from) == t,
{
    reveal(Tree::fullscreen_moved);
}

// ---------------------------------------------------------------------------------------------
// Columns and boxes
// ---------------------------------------------------------------------------------------------

/// A container that comes to an empty workspace becomes it: the workspace has its layout and its
/// children in their order.
pub proof fn law_a_container_becomes_the_workspace(t: Tree, k: NodeKey, focus: bool)
    requires
        t.wf(),
        t.unwraps(k),
        k != t.root,
        !t.parents.contains_key(k),
    ensures
        ({
            let u = t.arrived(0, k, focus);
            &&& u.nodes[t.root].children == t.nodes[k].children
            &&& u.nodes[t.root].layout == t.nodes[k].layout
            &&& !u.has(k)
        }),
{
    let kids = t.nodes[k].children;
    let a = t.with_node(t.root, t.nodes[t.root].with_layout(t.nodes[k].layout));
    crate::tree::lemma_with_node(t, t.root, a.nodes[t.root]);
    lemma_poured(a, k, kids.len());
    let b = a.poured(k, kids.len());
    assert(a.nodes[k].children == kids);
    assert(t.nodes[t.root].children.len() == 0);
    assert(b.nodes[t.root].children =~= kids);
    let c = b.dropped(k).pruned();
    crate::focus::lemma_settled_shape(c, kids[0], focus);
}

/// Children that are poured out are at the end of the workspace, in their order.
proof fn lemma_poured(t: Tree, k: NodeKey, n: nat)
    requires
        t.wf(),
        t.is_parent(k),
        k != t.root,
        !t.under(t.root, k),
        n <= t.nodes[k].children.len(),
        !t.is_floating(k),
    ensures
        ({
            let u = t.poured(k, n);
            &&& u.nodes[t.root].children == t.nodes[t.root].children + t.nodes[k].children.take(
                n as int,
            )
            &&& u.nodes[t.root].layout == t.nodes[t.root].layout
            &&& u.root == t.root
        }),
    decreases n,
{
    let kids = t.nodes[k].children;
    if n == 0 {
        assert(t.nodes[t.root].children + kids.take(0) =~= t.nodes[t.root].children);
    } else {
        let c = kids[0];
        lemma_slot(t, k, c, 0);
        crate::swap::lemma_listed_not_floating(t, c);
        crate::tree::lemma_unlinked(t, c);
        let a = t.unlinked(c);
        let end = t.nodes[t.root].children.len() as int;
        assert(kids.no_duplicates());
        assert(kids.index_of(c) == 0) by {
            crate::tree::lemma_without_is_remove(kids, c);
            assert(kids[kids.index_of(c)] == kids[0]);
        }
        assert(c != t.root);
        assert(!a.under(t.root, c)) by {
            assert(!t.parents.contains_key(t.root));
        }
        crate::tree::lemma_linked_at(a, c, t.root, end);
        let b = a.linked_at(c, t.root, end);
        assert(b.nodes[k].children =~= kids.drop_first()) by {
            assert(kids.remove(0) =~= kids.drop_first());
        }
        assert(b.nodes[t.root].children =~= t.nodes[t.root].children.push(c)) by {
            assert(t.nodes[t.root].children.insert(end, c) =~= t.nodes[t.root].children.push(c));
        }
        assert(!b.under(t.root, k)) by {
            assert(!b.parents.contains_key(t.root));
        }
        assert(!b.is_floating(k)) by {
            if b.is_floating(k) {
                let j = choose|j: int|
                    0 <= j < b.floating.len() && #[trigger] b.floating[j].key == k;
                assert(t.floating[j].key == k);
            }
        }
        lemma_poured(b, k, (n - 1) as nat);
        let u = t.poured(k, n);
        assert(u.nodes[t.root].children =~= t.nodes[t.root].children + kids.take(n as int)) by {
            assert(kids.drop_first().take(n - 1) =~= kids.take(n as int).drop_first());
        }
    }
}

/// Two splits that cross each other inside a parent that runs like the inner one are redundant: the
/// contents of the inner one stand in the place of the outer, in reversed order, and everything
/// beside it stays.
pub proof fn law_redundant_splits_are_opened(
    t: Tree,
    con: NodeKey,
    child: NodeKey,
    p: NodeKey,
    i: int,
    n: int,
)
    requires
        t.wf(),
        t.sits(con, p, i),
        t.nodes[con].children == seq![child],
        t.is_parent(child),
        0 <= n < t.nodes[child].children.len(),
    ensures
        ({
            let (taken, kids) = (t.nodes[child].children, t.nodes[p].children);
            let list = t.dissolved(con, child).nodes[p].children;
            &&& list.len() == kids.len() - 1 + taken.len()
            &&& list[i + n] == taken[taken.len() - 1 - n]
            &&& forall|m: int| 0 <= m < i ==> #[trigger] list[m] == kids[m]
            &&& forall|m: int|
                i < m < kids.len() ==> list[m - 1 + taken.len()] == #[trigger] kids[m]
        }),
        t.is_squashable(con) ==> (t.nodes[con].layout == Layout::SplitH && t.nodes[child].layout
            == Layout::SplitV || t.nodes[con].layout == Layout::SplitV && t.nodes[child].layout
            == Layout::SplitH),
{
    assert(t.is_parent(p) && t.is_parent(con));
    lemma_slot(t, p, con, i);
    lemma_slot(t, con, child, 0);
    let kids = t.nodes[p].children;
    assert(kids.no_duplicates());
    assert(kids.index_of(con) == i) by {
        assert(kids[kids.index_of(con)] == kids[i]);
    }
    lemma_depth(t.parents, con);
    lemma_depth(t.parents, child);
}

/// The layout autotiling gives a tiled node with a box is along the box: side by side in a wide one,
/// one above the other in a high one; none in tabs and stacks, on the floating side, or with the mode
/// off.
pub proof fn law_autotiling_follows_the_box(t: Tree, k: NodeKey, wide: bool)
    ensures
        t.autotile(k, wide) matches Some(layout) ==> t.options.autotile && t.branch(k) == t.root
            && layout == if wide {
            Layout::SplitH
        } else {
            Layout::SplitV
        },
        t.options.autotile && t.branch(k) == t.root && (!t.parents.contains_key(k)
            || t.nodes[t.parents[k]].layout == Layout::SplitH || t.nodes[t.parents[k]].layout
            == Layout::SplitV) && (t.box_of(k) matches Some(rect) && rect.size.w.positive()
            && rect.size.h.positive()) ==> t.autotile(k, wide) is Some,
        t.parents.contains_key(k) && t.is_parent(t.parents[k]) && (t.nodes[t.parents[k]].layout
            == Layout::Tabbed || t.nodes[t.parents[k]].layout == Layout::Stacked) ==> t.autotile(
            k,
            wide,
        ) is None,
{
}

/// A span reads back along its own axis and leaves the other axis alone.
pub proof fn law_span_reads_back(sizing: NodeSizing, layout: Layout, total: Real)
    ensures
        layout == Layout::SplitH || layout == Layout::SplitV ==> sizing.with_total(
            layout,
            total,
        ).total(layout) == total,
        sizing.with_total(Layout::SplitH, total).total(Layout::SplitV) == sizing.total(
            Layout::SplitV,
        ),
        sizing.with_total(Layout::SplitV, total).total(Layout::SplitH) == sizing.total(
            Layout::SplitH,
        ),
        sizing.with_total(layout, total).fractions == sizing.fractions,
{
}

/// Cached entries are given the address their window has now, and those of windows that are gone
/// are dropped.
pub proof fn law_entries_are_readdressed(t: Tree, leaves: Seq<LeafInfo>, i: int)
    ensures
        0 <= i < t.readdressed_leaves(leaves).len() ==> {
            let e = t.readdressed_leaves(leaves)[i];
            t.is_view(e.key) && e.path == t.address(e.key) && e.branch == t.branch(e.key)
        },
        0 <= i < leaves.len() && t.is_view(leaves[i].key) ==> exists|j: int|
            0 <= j < t.readdressed_leaves(leaves).len() && (#[trigger] t.readdressed_leaves(
                leaves,
            )[j]).key == leaves[i].key && t.readdressed_leaves(leaves)[j].rect == leaves[i].rect
                && t.readdressed_leaves(leaves)[j].visible == leaves[i].visible,
    decreases leaves.len(),
{
    if leaves.len() > 0 {
        let front = leaves.drop_last();
        law_entries_are_readdressed(t, front, i);
        let rest = t.readdressed_leaves(front);
        let all = t.readdressed_leaves(leaves);
        if 0 <= i < leaves.len() && t.is_view(leaves[i].key) {
            if i < front.len() {
                let j = choose|j: int|
                    0 <= j < rest.len() && (#[trigger] rest[j]).key == front[i].key && rest[j].rect
                        == front[i].rect && rest[j].visible == front[i].visible;
                assert(all[j] == rest[j]);
            } else {
                assert(all[rest.len() as int].key == leaves[i].key);
            }
        }
    }
}

/// An answered arrange whose windows are still where it says is committed; one whose branch has
/// moved on is not, and another arrange is wanted.
pub proof fn law_stale_arranges_are_dropped(t: Tree, p: Pending)
    ensures
        t.addresses(p.data.leaves) ==> t.settled(seq![p]) == t.applied(p.branch, p.data),
        !t.addresses(p.data.leaves) ==> t.settled(seq![p]).caches.leaves == t.caches.leaves
            && t.settled(seq![p]).caches.relayout && t.settled(seq![p]).nodes == t.nodes,
{
    assert(seq![p].drop_last() =~= Seq::empty());
    assert(t.settled(Seq::empty()) == t);
}

/// The nearest container along the axis in which a sibling can pay is the one resized in, by the
/// child that holds the node.
pub proof fn law_the_nearest_that_can_pays(
    t: Tree,
    k: NodeKey,
    layout: Layout,
    reach: ResizeReach,
)
    requires
        t.wf(),
        t.paying(k, layout, reach) is Some,
    ensures
        ({
            let (p, i) = t.paying(k, layout, reach)->0;
            &&& t.nodes[p].layout == layout
            &&& exists|c: NodeKey| #[trigger] t.under(k, c) && t.sits(c, p, i)
            &&& match reach {
                ResizeReach::Siblings => t.nodes[p].children.len() > 1,
                ResizeReach::Before => i > 0,
                ResizeReach::After => i + 1 < t.nodes[p].children.len(),
            }
        }),
    decreases depth(t.parents, k),
{
    let p = t.parents[k];
    lemma_depth(t.parents, k);
    assert(t.under(k, k));
    let here = t.is_parent(p) && t.nodes[p].layout == layout && t.slot_of(k) is Some;
    if here {
        let kids = t.kids(p);
        let w = choose|w: int| 0 <= w < kids.len() && kids[w] == k;
        lemma_slot(t, p, k, w);
        assert(t.sits(k, p, kids.index_of(k)));
    }
    if !(here && t.has_payer(p, t.kids(p).index_of(k), reach)) {
        law_the_nearest_that_can_pays(t, p, layout, reach);
        let (q, i) = t.paying(k, layout, reach)->0;
        let c = choose|c: NodeKey| #[trigger] t.under(p, c) && t.sits(c, q, i);
        assert(t.under(k, c));
    }
}

/// A window is told that it is active exactly when the floating side may be and it is the active one,
/// and of a resize exactly when it is in the group that is resized.
pub proof fn law_windows_are_told(
    t: Tree,
    k: NodeKey,
    edges: ResizeEdge,
    root: NodeKey,
    may_activate: bool,
)
    ensures
        ({
            let id = t.nodes[k].tile->0.window.id;
            let told = t.notice(k, Some((edges, root)), may_activate);
            &&& told.window == id
            &&& told.activated <==> may_activate && t.active_id() == Some(id)
            &&& told.resize == if t.window_ids_of(t.leaves(root)).contains(id) {
                Some(edges)
            } else {
                None
            }
            &&& t.notice(k, None, may_activate).resize is None
        }),
{
}

} // verus!
