//! How windows come to the floating side and go back, and what a swap and a bar leave to see.

use crate::axis::{Layout, NodeKey};
use crate::cache::ArrangeScope;
use crate::focus::{law_focused_window_is_most_recent, lemma_settled_shape};
use crate::gauges::nothing_hides;
use crate::leafcache::lemma_with_caches;
use crate::measure::IntSize;
use crate::node::Node;
use crate::passes::{lemma_hidden_step, lemma_shown_index};
use crate::restore::lemma_focused_wf;
use crate::stacks::{law_groups_land_where_they_are_sent, lemma_implicit_alike, lemma_no_dialogs};
use crate::swap::{lemma_crossed, lemma_dressed, lemma_same_frame, lemma_stack_index, same_frame};
use crate::tabs::{bar_in, BarBox};
use crate::tile::{TileState, WindowId};
use crate::trades::lemma_frame_wf;
use crate::tree::{
    depth, lemma_added, lemma_depth, lemma_first_of, lemma_floated, lemma_raised_lineage,
    lemma_same_shape, lemma_under_depth, lemma_under_trans, lineage, room, FloatingGeometry,
    FloatingRoot, FloatingRootKind, Pick, Tree,
};
use crate::walk::{lemma_leaves_are_views, lemma_slot, lemma_step_down};
use vstd::prelude::*;

verus! {

/// A tree with a window registered on top of the stack.
spec fn topped(t: Tree, arrived: TileState, geometry: FloatingGeometry) -> Tree {
    t.superseded().added(arrived.key, Node::view_of(arrived)).registered(
        arrived.key,
        geometry,
        0,
        FloatingRootKind::ImplicitWindowGroup,
    )
}

proof fn lemma_topped(t: Tree, arrived: TileState, geometry: FloatingGeometry)
    requires
        t.wf(),
        t.expects(arrived.key),
    ensures
        topped(t, arrived, geometry).wf(),
        topped(t, arrived, geometry).floating == seq![
            FloatingRoot {
                id: t.next_floating_id,
                key: arrived.key,
                kind: FloatingRootKind::ImplicitWindowGroup,
                geometry,
            },
        ] + t.floating,
        topped(t, arrived, geometry).seat == t.seat.register(arrived.key),
        topped(t, arrived, geometry).nodes == t.nodes.insert(arrived.key, Node::view_of(arrived)),
        topped(t, arrived, geometry).fullscreen == t.fullscreen,
{
    let s = t.superseded();
    lemma_with_caches(t, s.caches);
    let node = Node::view_of(arrived);
    lemma_added(s, arrived.key, node);
    let b = s.added(arrived.key, node);
    let entry = FloatingRoot {
        id: t.next_floating_id,
        key: arrived.key,
        kind: FloatingRootKind::ImplicitWindowGroup,
        geometry,
    };
    lemma_floated(b, entry, 0);
    lemma_same_shape(b.floated(entry, 0), topped(t, arrived, geometry));
    assert(t.floating.insert(0, entry) =~= seq![entry] + t.floating);
}

/// A group on top that nothing is a dialog of stays where it is.
proof fn lemma_nothing_above(d: Tree, k: NodeKey, id: WindowId)
    requires
        d.wf(),
        d.floating.len() > 0,
        d.floating[0].key == k,
        d.is_view(k),
        d.nodes[k].tile->0.window.id == id,
        forall|x: NodeKey| #[trigger]
            d.is_view(x) ==> d.nodes[x].tile->0.window.parent != Some(id),
    ensures
        d.dialogs_raised(0) == d,
{
    assert(d.leaves(k) == seq![k]);
    let seen = d.group_ids(d.floating[0].key);
    assert(seen =~= seq![id]);
    assert forall|n: int| 0 < n <= d.floating.len() - 1 implies !#[trigger] d.dialog_of(
        d.floating[n].key,
        seen,
    ) by {
        lemma_leaves_are_views(d, d.floating[n].key);
        if d.dialog_of(d.floating[n].key, seen) {
            let theirs = d.leaves(d.floating[n].key);
            let b = choose|b: int|
                0 <= b < theirs.len() && (
                d.nodes[#[trigger] theirs[b]].tile->0.window.parent matches Some(p)
                    && seen.contains(p));
            assert(d.is_view(theirs[b]));
        }
    }
    lemma_no_dialogs(d, 0, d.floating.len() - 1, seen);
    let none = d.dialog_groups(0, d.floating.len() - 1, seen);
    assert(none =~= Seq::empty());
}

/// A window without a parent or dialogs that is floated on top is the highest group, in the box it
/// is given, and the groups there were keep their order below it; if it is to be active it has the
/// focus.
pub proof fn law_floated_window_is_on_top(
    t: Tree,
    tile: TileState,
    activate: bool,
    geometry: FloatingGeometry,
    output: IntSize,
)
    requires
        t.wf(),
        t.expects(tile.key),
        t.next_floating_id < u64::MAX,
        tile.window.parent is None,
        tile.window.sizing_mode is Normal,
        forall|x: NodeKey| #[trigger]
            t.is_view(x) ==> t.nodes[x].tile->0.window.parent != Some(tile.window.id),
    ensures
        ({
            let u = t.tile_floated(0, tile, activate, geometry, output);
            &&& u.floating == seq![
                FloatingRoot {
                    id: t.next_floating_id,
                    key: tile.key,
                    kind: FloatingRootKind::ImplicitWindowGroup,
                    geometry,
                },
            ] + t.floating
            &&& u.is_view(tile.key)
            &&& u.nodes[tile.key].tile->0.window.id == tile.window.id
            &&& activate ==> u.seat.leaf == Some(tile.key)
            &&& !activate && t.seat.leaf is Some ==> u.seat == t.seat.register(tile.key)
        }),
{
    let k = tile.key;
    let arrived = tile.arriving(output);
    lemma_topped(t, arrived, geometry);
    let a = topped(t, arrived, geometry);
    assert(a.is_view(k));
    lemma_focused_wf(a, k);
    law_focused_window_is_most_recent(a, k);
    crate::focus::law_focus_leaves_the_tree_alone(a, k, true);
    let c = if activate || a.seat.leaf is None {
        a.focused(k)
    } else {
        a
    };
    let d = c.arranging(ArrangeScope::Workspace);
    lemma_with_caches(c, d.caches);
    assert forall|x: NodeKey| #[trigger] d.is_view(x) implies d.nodes[x].tile->0.window.parent
        != Some(tile.window.id) by {
        if x != k {
            assert(t.is_view(x));
        }
    }
    lemma_nothing_above(d, k, tile.window.id);
    assert(t.tile_floated(0, tile, activate, geometry, output) == d) by {
        reveal(Tree::tile_floated);
    }
}

/// Keeping the sizes of windows moves nothing.
proof fn lemma_stored_frame(t: Tree, keys: Seq<NodeKey>)
    ensures
        same_frame(t, t.sizes_stored(keys)),
        forall|x: NodeKey|
            (#[trigger] t.sizes_stored(keys).nodes[x]).user_created == t.nodes[x].user_created,
    decreases keys.len(),
{
    if keys.len() > 0 {
        lemma_stored_frame(t, keys.drop_last());
        let s = t.sizes_stored(keys.drop_last());
        let u = t.sizes_stored(keys);
        assert forall|x: NodeKey| #[trigger] u.has(x) <==> t.has(x) by {
            assert(s.has(x) <==> t.has(x));
        }
        assert forall|x: NodeKey| #[trigger] t.has(x) implies u.nodes[x].children
            == t.nodes[x].children && (u.nodes[x].tile is Some <==> t.nodes[x].tile is Some)
            && u.nodes[x].workspace == t.nodes[x].workspace && u.nodes[x].layout
            == t.nodes[x].layout by {
            assert(s.nodes[x].children == t.nodes[x].children);
        }
        assert forall|x: NodeKey| (#[trigger] u.nodes[x]).user_created
            == t.nodes[x].user_created by {
            assert(s.nodes[x].user_created == t.nodes[x].user_created);
        }
    }
}

/// A group that returns to the tiling is the last child of the workspace, or right after the window
/// it is sent to, and no longer floats.
pub proof fn law_returning_group_is_tiled(t: Tree, n: int, r: NodeKey, p: NodeKey, i: int)
    requires
        t.wf(),
        0 <= n < t.floating.len(),
        t.implicit_child(t.floating[n].key) is None,
        t.sits(r, p, i),
        t.branch(r) == t.root,
        t.is_view(r),
    ensures
        ({
            let k = t.floating[n].key;
            let end = t.group_returned(k, None, false).0;
            let by = t.group_returned(k, Some(r), false).0;
            &&& end.nodes[t.root].children == t.nodes[t.root].children.push(k)
            &&& end.floating == t.floating.remove(n)
            &&& by.nodes[p].children == t.nodes[p].children.insert(i + 1, k)
            &&& by.floating == t.floating.remove(n)
        }),
{
    let k = t.floating[n].key;
    let keys = t.leaves(k);
    lemma_stored_frame(t, keys);
    let a = t.sizes_stored(keys);
    lemma_frame_wf(t, a);
    lemma_stack_index(t, k, n);
    lemma_implicit_alike(t, a, k);
    assert(t.is_parent(p));
    lemma_slot(t, p, r, i);
    assert(t.has(p) && t.has(r) && t.has(t.root));
    lemma_same_frame(t, a, r);
    assert(a.has(p) && a.has(r) && a.has(t.root));
    assert(a.nodes[p].children == t.nodes[p].children);
    assert(a.nodes[t.root].children == t.nodes[t.root].children);
    assert(a.sits(r, p, i));
    crate::sides::lemma_branch_alike(t, a, r);
    law_groups_land_where_they_are_sent(a, n, r, p, i);
}

/// A swap leaves the focus with the node that had it.
pub proof fn law_swap_keeps_the_focus(
    t: Tree,
    a: NodeKey,
    b: NodeKey,
    f: NodeKey,
    p: NodeKey,
    i: int,
    q: NodeKey,
    j: int,
)
    requires
        t.wf(),
        a != b,
        !t.under(a, b),
        !t.under(b, a),
        t.sits(a, p, i),
        t.sits(b, q, j),
        t.seat.node() == Some(f),
        t.is_container(f),
        t.fullscreen is None,
    ensures
        t.swapped(a, b).0.seat.node() == Some(f),
{
    assert(t.is_parent(p) && t.is_parent(q));
    lemma_slot(t, p, a, i);
    lemma_slot(t, q, b, j);
    lemma_dressed(t, a, b);
    let d = t.boxes_swapped(a, b).shares_swapped(a, b);
    lemma_frame_wf(t, d);
    lemma_same_frame(t, d, a);
    lemma_same_frame(t, d, b);
    lemma_same_frame(t, d, p);
    assert(d.has(a) && d.has(b) && d.has(p) && d.has(q) && d.has(f)) by {
        assert(t.has(a) && t.has(b) && t.has(p) && t.has(q) && t.has(f));
    }
    assert(d.swappable(a, b));
    assert(d.fullscreen is None) by {
        reveal(Tree::boxes_swapped);
        reveal(Tree::shares_swapped);
    }
    assert(kids_at(d, p, i, a) && kids_at(d, q, j, b)) by {
        assert(d.nodes[p].children == t.nodes[p].children);
        assert(d.nodes[q].children == t.nodes[q].children);
    }
    lemma_exchange(d, a, b, f, p, i, q, j);
    let e = d.slots_exchanged(a, b);
    assert(t.is_container(f) == d.is_container(f)) by {
        assert(d.nodes[f].workspace == t.nodes[f].workspace);
    }
    lemma_swap_tail(e, a, b, f);
}

spec fn kids_at(t: Tree, p: NodeKey, i: int, c: NodeKey) -> bool {
    t.is_parent(p) && t.sits(c, p, i)
}

proof fn lemma_exchange(
    d: Tree,
    a: NodeKey,
    b: NodeKey,
    f: NodeKey,
    p: NodeKey,
    i: int,
    q: NodeKey,
    j: int,
)
    requires
        d.wf(),
        d.swappable(a, b),
        kids_at(d, p, i, a),
        kids_at(d, q, j, b),
        d.has(f),
        d.is_container(f),
    ensures
        d.slots_exchanged(a, b).wf(),
        d.slots_exchanged(a, b).seat == d.seat,
        d.slots_exchanged(a, b).fullscreen == d.fullscreen,
        d.slots_exchanged(a, b).is_container(f),
        d.slots_exchanged(a, b).has(a),
        d.slots_exchanged(a, b).has(b),
{
    reveal(Tree::slots_exchanged);
    lemma_slot(d, p, a, i);
    lemma_slot(d, q, b, j);
    let e = d.slots_exchanged(a, b);
    if p == q {
        let kids = d.nodes[p].children;
        crate::movement::lemma_exchanged(kids, i, j);
        assert(kids.index_of(a) == i && kids.index_of(b) == j);
        crate::movement::lemma_reordered(d, p, kids.update(i, b).update(j, a));
    } else {
        lemma_crossed(d, a, b);
        assert(e.has(f) <==> d.has(f));
        assert(e.has(a) <==> d.has(a));
        assert(e.has(b) <==> d.has(b));
    }
    lemma_workspace_alone(d, e, f);
}

proof fn lemma_swap_tail(e: Tree, a: NodeKey, b: NodeKey, f: NodeKey)
    requires
        e.wf(),
        e.seat.node() == Some(f),
        e.fullscreen is None,
        e.is_container(f),
        e.has(a),
        e.has(b),
    ensures
        e.swap_refocused(a, b, Some(f)).swap_fullscreen(a, b).seat.node() == Some(f),
{
    reveal(Tree::swap_refocused);
    reveal(Tree::swap_fullscreen);
    if f == a && e.in_switcher(b) {
        lemma_refocused(e, b);
        lemma_refocused(e.refocused(b), f);
    } else if f == b && e.in_switcher(a) {
        lemma_refocused(e, a);
        lemma_refocused(e.refocused(a), f);
    } else {
        lemma_refocused(e, f);
    }
}

/// A node other than the workspace is not the workspace in any tree with the same root.
proof fn lemma_workspace_alone(d: Tree, e: Tree, f: NodeKey)
    requires
        d.wf(),
        e.wf(),
        d.is_container(f),
        e.has(f),
        e.root == d.root,
    ensures
        e.is_container(f),
{
    assert(f != d.root);
    assert(e.nodes.contains_key(f));
}

proof fn lemma_refocused(t: Tree, k: NodeKey)
    requires
        t.wf(),
        t.has(k),
    ensures
        t.refocused(k).wf(),
        t.refocused(k).nodes == t.nodes,
        t.refocused(k).parents == t.parents,
        t.refocused(k).root == t.root,
        t.refocused(k).fullscreen == t.fullscreen,
        t.is_container(k) ==> t.refocused(k).seat.node() == Some(k),
{
    if t.is_view(k) {
        lemma_focused_wf(t, k);
        law_focused_window_is_most_recent(t, k);
    } else if t.is_container(k) {
        lemma_raised_lineage(t, k, t.keyboard_for(k), Some(k));
        let u = t.with_seat(t.seat.select(lineage(t.parents, k), k, t.keyboard_for(k)));
        lemma_with_caches(u, u.refreshed().caches);
    }
}

// ---------------------------------------------------------------------------------------------
// Bars
// ---------------------------------------------------------------------------------------------

/// Every tabbed or stacked container that can be seen and has a box for its bar has its bar listed.
pub proof fn law_every_switcher_in_sight_has_its_bar(
    t: Tree,
    k: NodeKey,
    path: Seq<usize>,
    boxes: Seq<BarBox>,
    x: NodeKey,
) -> (n: int)
    requires
        t.wf(),
        t.is_parent(x),
        t.nodes[x].layout == Layout::Tabbed || t.nodes[x].layout == Layout::Stacked,
        t.under(x, k),
        k != t.root || t.branch(x) == t.root,
        bar_in(boxes, x) is Some,
        nothing_hides(t, x, k),
    ensures
        0 <= n < t.bars(k, path, true, boxes).len(),
        t.bars(k, path, true, boxes)[n].key == x,
    decreases depth(t.parents, x) - depth(t.parents, k),
{
    if x == k {
        assert(t.bars(k, path, true, boxes)[0].key == k);
        0
    } else {
        let c = lemma_step_down(t, k, x);
        lemma_under_depth(t.parents, x, c);
        lemma_depth(t.parents, c);
        assert(!t.is_floating(c)) by {
            if t.is_floating(c) {
                crate::walk::lemma_branch_of_float(t, c, x);
                let j = choose|j: int|
                    0 <= j < t.floating.len() && #[trigger] t.floating[j].key == c;
                assert(t.parents[t.floating[j].key] == t.root);
            }
        }
        let kids = t.nodes[k].children;
        assert(kids.contains(c));
        assert(t.is_parent(k)) by {
            assert(kids.len() > 0);
        }
        let i = choose|i: int| 0 <= i < kids.len() && kids[i] == c;
        lemma_hidden_step(t, x, c, k);
        lemma_shown_index(t, k, i);
        assert(c != t.root);
        let seen = t.nodes[k].layout.is_split() || i == t.shown_index(k);
        assert(seen);
        let m = law_every_switcher_in_sight_has_its_bar(t, c, path.push(i as usize), boxes, x);
        let n = lemma_bars_listed(t, k, path, boxes, 0, i, m);
        let own = t.own_bar(k, path, true, boxes);
        assert(t.bars(k, path, true, boxes)[own.len() + n] == t.bars_from(
            k,
            path,
            true,
            boxes,
            0,
        )[n]);
        own.len() + n
    }
}

proof fn lemma_bars_listed(
    t: Tree,
    k: NodeKey,
    path: Seq<usize>,
    boxes: Seq<BarBox>,
    from: int,
    i: int,
    m: int,
) -> (n: int)
    requires
        t.wf(),
        0 <= from <= i < t.kids(k).len(),
        t.nodes[k].layout.is_split() || i == t.shown_index(k),
        0 <= m < t.bars(t.kids(k)[i], path.push(i as usize), true, boxes).len(),
    ensures
        0 <= n < t.bars_from(k, path, true, boxes, from).len(),
        t.bars_from(k, path, true, boxes, from)[n] == t.bars(
            t.kids(k)[i],
            path.push(i as usize),
            true,
            boxes,
        )[m],
    decreases i - from,
{
    let seen = t.nodes[k].layout.is_split() || from == t.shown_index(k);
    let first = t.bars(t.kids(k)[from], path.push(from as usize), seen, boxes);
    let rest = t.bars_from(k, path, true, boxes, from + 1);
    assert(t.bars_from(k, path, true, boxes, from) == first + rest);
    if from == i {
        m
    } else {
        let n = lemma_bars_listed(t, k, path, boxes, from + 1, i, m);
        first.len() + n
    }
}

/// A window put into a column stands there at the place asked for, or at the end.
pub proof fn law_window_joins_a_column(
    t: Tree,
    column: int,
    at: Option<usize>,
    tile: TileState,
    focus: bool,
)
    requires
        t.wf(),
        t.expects(tile.key),
        0 <= column < t.nodes[t.root].children.len(),
        !t.is_view(t.nodes[t.root].children[column]),
    ensures
        ({
            let c = t.nodes[t.root].children[column];
            let kids = t.nodes[c].children;
            let (u, done) = t.joined_column(column, at, tile, focus);
            &&& done
            &&& u.nodes[c].children == kids.insert(
                match at {
                    Some(i) if i <= kids.len() => i as int,
                    _ => kids.len() as int,
                },
                tile.key,
            )
            &&& u.parents[tile.key] == c
        }),
{
    let c = t.nodes[t.root].children[column];
    assert(t.is_parent(t.root));
    lemma_slot(t, t.root, c, column);
    let a = t.added(tile.key, Node::view_of(tile));
    lemma_settled_shape(a, tile.key, focus);
    assert(t.is_parent(c));
}

} // verus!
