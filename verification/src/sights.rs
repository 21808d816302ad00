//! What is seen of the floating side, what the pointer meets there, and what resizing it comes to.

use crate::axis::{Direction, Layout, NodeKey};
use crate::cache::LeafInfo;
use crate::fitting::within_limits_or_free;
use crate::measure::{IntSize, Real, Rect};
use crate::resize::{Edge, ResizeEdge};
use crate::scene::{
    bar_hit_in, entries_of, first_bar_hit, further, nearest_from, outermost, probe_of, pull, reach,
    seen, FloatingResizeResult, Pull, ResizeProbe,
};
use crate::space::InteractiveResize;
use crate::tile::WindowId;
use crate::tree::{depth, lemma_depth, lemma_under_depth, lemma_under_trans, Tree};
use crate::upkeep::{cycled_place, next_preset, ResizeAxis, ResizeRequest, ResizeSubject};
use crate::walk::lemma_slot;
use vstd::prelude::*;

verus! {

// ---------------------------------------------------------------------------------------------
// The nearest group
// ---------------------------------------------------------------------------------------------

/// Whether the group at a place can be gone to: it is not the active one, and lies at some distance
/// in the direction, not behind.
pub open spec fn ahead(active: int, distances: Seq<Real>, i: int) -> bool {
    i != active && i < distances.len() && !distances[i].is_nan() && distances[i].rank() >= 0
}

proof fn lemma_nearest(active: int, distances: Seq<Real>, count: int, i: int)
    requires
        0 <= i,
    ensures
        match nearest_from(active, distances, count, i) {
            Some(n) => i <= n < count && ahead(active, distances, n) && forall|j: int|
                i <= j < count && #[trigger] ahead(active, distances, j)
                    ==> distances[n].total_rank() <= distances[j].total_rank() && (
                distances[n].total_rank() == distances[j].total_rank() ==> j <= n),
            None => forall|j: int| i <= j < count ==> !#[trigger] ahead(active, distances, j),
        },
    decreases count - i,
{
    if i < count {
        lemma_nearest(active, distances, count, i + 1);
    }
}

/// The group gone to in a direction is the nearest one ahead, the lowest of those as near; none is
/// gone to only when none lies ahead.
pub proof fn law_nearest_group_is_nearest(t: Tree, distances: Seq<Real>)
    ensures
        t.active_group() is None ==> t.nearest_group(distances) is None,
        t.active_group() matches Some(active) ==> match t.nearest_group(distances) {
            Some(k) => exists|n: int|
                0 <= n < t.floating.len() && (#[trigger] t.floating[n]).key == k && ahead(
                    active,
                    distances,
                    n,
                ) && forall|j: int|
                    0 <= j < t.floating.len() && #[trigger] ahead(active, distances, j)
                        ==> distances[n].total_rank() <= distances[j].total_rank() && (
                    distances[n].total_rank() == distances[j].total_rank() ==> j <= n),
            None => forall|j: int|
                0 <= j < t.floating.len() ==> !#[trigger] ahead(active, distances, j),
        },
{
    if t.active_group() is Some {
        let active = t.active_group()->0;
        let count = t.floating.len() as int;
        lemma_nearest(active, distances, count, 0);
        if nearest_from(active, distances, count, 0) is Some {
            let n = nearest_from(active, distances, count, 0)->0;
            assert(t.floating[n].key == t.nearest_group(distances)->0);
        }
    }
}

// ---------------------------------------------------------------------------------------------
// What is shown, from the top down
// ---------------------------------------------------------------------------------------------

proof fn lemma_entries(leaves: Seq<LeafInfo>, t: Tree, branch: NodeKey)
    ensures
        forall|i: int|
            0 <= i < entries_of(leaves, t, branch).len() ==> {
                let e = #[trigger] entries_of(leaves, t, branch)[i];
                e.branch == branch && t.is_view(e.key) && leaves.contains(e)
            },
        forall|i: int|
            0 <= i < leaves.len() && (#[trigger] leaves[i]).branch == branch && t.is_view(
                leaves[i].key,
            ) ==> entries_of(leaves, t, branch).contains(leaves[i]),
    decreases leaves.len(),
{
    if leaves.len() > 0 {
        let front = leaves.drop_last();
        lemma_entries(front, t, branch);
        let rest = entries_of(front, t, branch);
        let all = entries_of(leaves, t, branch);
        assert forall|i: int| 0 <= i < all.len() implies {
            let e = #[trigger] all[i];
            e.branch == branch && t.is_view(e.key) && leaves.contains(e)
        } by {
            if i < rest.len() {
                assert(all[i] == rest[i]);
                let j = choose|j: int| 0 <= j < front.len() && front[j] == rest[i];
                assert(leaves[j] == rest[i]);
            } else {
                assert(leaves[leaves.len() - 1] == all[i]);
            }
        }
        assert forall|i: int|
            0 <= i < leaves.len() && (#[trigger] leaves[i]).branch == branch && t.is_view(
                leaves[i].key,
            ) implies all.contains(leaves[i]) by {
            if i < front.len() {
                assert(front[i] == leaves[i]);
                let j = choose|j: int| 0 <= j < rest.len() && rest[j] == leaves[i];
                assert(all[j] == leaves[i]);
            } else {
                assert(all[all.len() - 1] == leaves[i]);
            }
        }
    }
}

proof fn lemma_shown(t: Tree, i: int)
    requires
        0 <= i,
    ensures
        forall|a: int|
            0 <= a < t.shown_from(i).len() ==> t.is_view((#[trigger] t.shown_from(i)[a]).key)
                && t.caches.leaves.contains(t.shown_from(i)[a]) && exists|n: int|
                i <= n < t.floating.len() && (#[trigger] t.floating[n]).key
                    == t.shown_from(i)[a].branch,
        forall|n: int, x: int|
            i <= n < t.floating.len() && 0 <= x < t.caches.leaves.len() && (
            #[trigger] t.caches.leaves[x]).branch == (#[trigger] t.floating[n]).key && t.is_view(
                t.caches.leaves[x].key,
            ) ==> t.shown_from(i).contains(t.caches.leaves[x]),
    decreases t.floating.len() - i,
{
    if i < t.floating.len() {
        let here = entries_of(t.caches.leaves, t, t.floating[i].key);
        let rest = t.shown_from(i + 1);
        let all = t.shown_from(i);
        lemma_entries(t.caches.leaves, t, t.floating[i].key);
        lemma_shown(t, i + 1);
        assert forall|a: int| 0 <= a < all.len() implies t.is_view((#[trigger] all[a]).key)
            && t.caches.leaves.contains(all[a]) && exists|n: int|
            i <= n < t.floating.len() && (#[trigger] t.floating[n]).key == all[a].branch by {
            if a < here.len() {
                assert(all[a] == here[a]);
                assert(t.floating[i].key == all[a].branch);
            } else {
                assert(all[a] == rest[a - here.len()]);
            }
        }
        assert forall|n: int, x: int|
            i <= n < t.floating.len() && 0 <= x < t.caches.leaves.len() && (
            #[trigger] t.caches.leaves[x]).branch == (#[trigger] t.floating[n]).key && t.is_view(
                t.caches.leaves[x].key,
            ) implies all.contains(t.caches.leaves[x]) by {
            let e = t.caches.leaves[x];
            if n == i {
                let j = choose|j: int| 0 <= j < here.len() && here[j] == e;
                assert(all[j] == e);
            } else {
                let j = choose|j: int| 0 <= j < rest.len() && rest[j] == e;
                assert(all[here.len() + j] == e);
            }
        }
    }
}

/// The windows shown are the cached windows of the groups, all of them and no others.
pub proof fn law_all_floating_windows_are_shown(t: Tree, e: LeafInfo)
    ensures
        t.shown_from(0).contains(e) <==> t.caches.leaves.contains(e) && t.is_view(e.key)
            && t.is_floating(e.branch),
{
    lemma_shown(t, 0);
    if t.shown_from(0).contains(e) {
        let a = choose|a: int| 0 <= a < t.shown_from(0).len() && t.shown_from(0)[a] == e;
        assert(t.is_view(t.shown_from(0)[a].key));
    }
    if t.caches.leaves.contains(e) && t.is_view(e.key) && t.is_floating(e.branch) {
        let x = choose|x: int| 0 <= x < t.caches.leaves.len() && t.caches.leaves[x] == e;
        let n = choose|n: int| 0 <= n < t.floating.len() && #[trigger] t.floating[n].key == e.branch;
        assert(t.caches.leaves[x].branch == t.floating[n].key);
    }
}

/// Windows are shown from the top of the stack down: none of a lower group comes before one of a
/// higher group.
pub proof fn law_higher_groups_are_shown_first(t: Tree, a: int, b: int, m: int, n: int)
    requires
        t.wf(),
        0 <= a < b < t.shown_from(0).len(),
        0 <= m < t.floating.len(),
        0 <= n < t.floating.len(),
        t.shown_from(0)[a].branch == t.floating[m].key,
        t.shown_from(0)[b].branch == t.floating[n].key,
    ensures
        m <= n,
{
    lemma_shown_in_order(t, 0, a, b, m, n);
}

proof fn lemma_shown_in_order(t: Tree, i: int, a: int, b: int, m: int, n: int)
    requires
        t.wf(),
        0 <= i,
        0 <= a < b < t.shown_from(i).len(),
        0 <= m < t.floating.len(),
        0 <= n < t.floating.len(),
        t.shown_from(i)[a].branch == t.floating[m].key,
        t.shown_from(i)[b].branch == t.floating[n].key,
    ensures
        m <= n,
    decreases t.floating.len() - i,
{
    let here = entries_of(t.caches.leaves, t, t.floating[i].key);
    let rest = t.shown_from(i + 1);
    lemma_entries(t.caches.leaves, t, t.floating[i].key);
    lemma_shown(t, i + 1);
    if a < here.len() {
        assert(t.shown_from(i)[a] == here[a]);
        assert(t.floating[m].key == t.floating[i].key);
        assert(m == i);
        if b < here.len() {
            assert(t.shown_from(i)[b] == here[b]);
            assert(t.floating[n].key == t.floating[i].key);
        } else {
            assert(t.shown_from(i)[b] == rest[b - here.len()]);
            let x = choose|x: int|
                i + 1 <= x < t.floating.len() && (#[trigger] t.floating[x]).key == rest[b
                    - here.len()].branch;
            assert(t.floating[x].key == t.floating[n].key);
        }
    } else {
        assert(t.shown_from(i)[a] == rest[a - here.len()]);
        assert(t.shown_from(i)[b] == rest[b - here.len()]);
        lemma_shown_in_order(t, i + 1, a - here.len(), b - here.len(), m, n);
    }
}

/// What is visible of some entries: exactly those that are, in their order.
pub proof fn law_only_the_visible_is_seen(entries: Seq<LeafInfo>, e: LeafInfo)
    ensures
        seen(entries).contains(e) <==> entries.contains(e) && e.visible,
        seen(entries).len() <= entries.len(),
    decreases entries.len(),
{
    if entries.len() > 0 {
        let front = entries.drop_last();
        law_only_the_visible_is_seen(front, e);
        assert(entries =~= front.push(entries.last()));
        let rest = seen(front);
        if front.contains(e) {
            let j = choose|j: int| 0 <= j < front.len() && front[j] == e;
            assert(entries[j] == e);
        }
        if entries.contains(e) {
            let j = choose|j: int| 0 <= j < entries.len() && entries[j] == e;
            if j < front.len() {
                assert(front[j] == e);
            }
        }
        if entries.last().visible {
            let all = rest.push(entries.last());
            if rest.contains(e) {
                let j = choose|j: int| 0 <= j < rest.len() && rest[j] == e;
                assert(all[j] == e);
            }
            if all.contains(e) {
                let j = choose|j: int| 0 <= j < all.len() && all[j] == e;
                if j < rest.len() {
                    assert(rest[j] == e);
                }
            }
            assert(all[rest.len() as int] == entries.last());
        }
        assert(entries[entries.len() - 1] == entries.last());
    }
}

// ---------------------------------------------------------------------------------------------
// Under the pointer
// ---------------------------------------------------------------------------------------------

proof fn lemma_first_hit(t: Tree, entries: Seq<LeafInfo>, hits: Seq<NodeKey>)
    ensures
        match t.first_hit(entries, hits) {
            Some(id) => exists|n: int|
                0 <= n < entries.len() && t.nodes[(#[trigger] entries[n]).key].tile->0.window.id
                    == id && hits.contains(entries[n].key) && t.in_scope(entries[n].key)
                    && forall|m: int|
                    0 <= m < n ==> !(hits.contains((#[trigger] entries[m]).key) && t.in_scope(
                        entries[m].key,
                    )),
            None => forall|m: int|
                0 <= m < entries.len() ==> !(hits.contains((#[trigger] entries[m]).key)
                    && t.in_scope(entries[m].key)),
        },
    decreases entries.len(),
{
    if entries.len() > 0 {
        let rest = entries.drop_first();
        if t.in_scope(entries[0].key) && hits.contains(entries[0].key) {
            assert(t.nodes[entries[0].key].tile->0.window.id == t.first_hit(entries, hits)->0);
        } else {
            lemma_first_hit(t, rest, hits);
            match t.first_hit(rest, hits) {
                Some(id) => {
                    let n = choose|n: int|
                        0 <= n < rest.len() && t.nodes[(
                        #[trigger] rest[n]).key].tile->0.window.id == id && hits.contains(
                            rest[n].key,
                        ) && t.in_scope(rest[n].key) && forall|m: int|
                            0 <= m < n ==> !(hits.contains((#[trigger] rest[m]).key)
                                && t.in_scope(rest[m].key));
                    assert(entries[n + 1] == rest[n]);
                    assert forall|m: int| 0 <= m < n + 1 implies !(hits.contains(
                        (#[trigger] entries[m]).key,
                    ) && t.in_scope(entries[m].key)) by {
                        if m > 0 {
                            assert(rest[m - 1] == entries[m]);
                        }
                    }
                },
                None => {
                    assert forall|m: int| 0 <= m < entries.len() implies !(hits.contains(
                        (#[trigger] entries[m]).key,
                    ) && t.in_scope(entries[m].key)) by {
                        if m > 0 {
                            assert(rest[m - 1] == entries[m]);
                        }
                    }
                },
            }
        }
    }
}

/// Where no tab is hit and no window is fullscreen, the pointer is over the topmost visible window
/// that is hit, of those within what is fullscreen; over none only when none is hit.
pub proof fn law_pointer_meets_the_topmost(
    t: Tree,
    bar_hits: Seq<(NodeKey, WindowId)>,
    hits: Seq<NodeKey>,
)
    requires
        t.floating_fullscreen_id() is None,
        first_bar_hit(t.bar_scopes(), bar_hits) is None,
    ensures
        ({
            let entries = seen(t.shown_from(0));
            match t.under_pointer(bar_hits, hits) {
                Some(id) => exists|n: int|
                    0 <= n < entries.len() && t.nodes[(
                    #[trigger] entries[n]).key].tile->0.window.id == id && hits.contains(
                        entries[n].key,
                    ) && t.in_scope(entries[n].key) && forall|m: int|
                        0 <= m < n ==> !(hits.contains((#[trigger] entries[m]).key) && t.in_scope(
                            entries[m].key,
                        )),
                None => forall|m: int|
                    0 <= m < entries.len() ==> !(hits.contains((#[trigger] entries[m]).key)
                        && t.in_scope(entries[m].key)),
            }
        }),
{
    lemma_first_hit(t, seen(t.shown_from(0)), hits);
}

/// A fullscreen window is all the pointer can be over.
pub proof fn law_pointer_meets_only_fullscreen(
    t: Tree,
    bar_hits: Seq<(NodeKey, WindowId)>,
    hits: Seq<NodeKey>,
    k: NodeKey,
)
    requires
        t.floating_fullscreen() == Some(k),
        t.is_view(k),
    ensures
        t.under_pointer(bar_hits, hits) == if hits.contains(k) {
            Some(t.nodes[k].tile->0.window.id)
        } else {
            None
        },
{
}

/// A tab that is hit comes before every window, the bars of a higher group before those of a lower.
pub proof fn law_tabs_are_met_first(
    t: Tree,
    bar_hits: Seq<(NodeKey, WindowId)>,
    hits: Seq<NodeKey>,
    n: int,
)
    requires
        t.floating_fullscreen() is None,
        0 <= n < t.floating.len(),
        bar_hit_in(bar_hits, t.floating[n].key) is Some,
        forall|m: int|
            0 <= m < n ==> bar_hit_in(bar_hits, (#[trigger] t.floating[m]).key) is None,
    ensures
        t.under_pointer(bar_hits, hits) == bar_hit_in(bar_hits, t.floating[n].key),
{
    let scopes = t.bar_scopes();
    assert(scopes[n] == t.floating[n].key);
    assert forall|m: int| 0 <= m < n implies bar_hit_in(bar_hits, #[trigger] scopes[m]) is None by {
        assert(scopes[m] == t.floating[m].key);
    }
    lemma_first_bar_hit(scopes, bar_hits, n);
}

proof fn lemma_first_bar_hit(scopes: Seq<NodeKey>, hits: Seq<(NodeKey, WindowId)>, n: int)
    requires
        0 <= n < scopes.len(),
        bar_hit_in(hits, scopes[n]) is Some,
        forall|m: int| 0 <= m < n ==> bar_hit_in(hits, #[trigger] scopes[m]) is None,
    ensures
        first_bar_hit(scopes, hits) == bar_hit_in(hits, scopes[n]),
    decreases scopes.len(),
{
    if n > 0 {
        assert(bar_hit_in(hits, scopes[0]) is None);
        let rest = scopes.drop_first();
        assert forall|m: int| 0 <= m < n - 1 implies bar_hit_in(hits, #[trigger] rest[m]) is None by {
            assert(rest[m] == scopes[m + 1]);
        }
        lemma_first_bar_hit(rest, hits, n - 1);
    }
}

/// The window furthest out: none lies further left or up, or further right or down.
pub proof fn law_outermost_is_furthest_out(entries: Seq<LeafInfo>, edge: Edge, j: int)
    requires
        0 <= j < entries.len(),
    ensures
        outermost(entries, edge) matches Some(best) && entries.contains(best) && match edge {
            Edge::Left => best.rect.loc.x.total_rank() <= entries[j].rect.loc.x.total_rank(),
            Edge::Right => best.rect.loc.x.total_rank() >= entries[j].rect.loc.x.total_rank(),
            Edge::Top => best.rect.loc.y.total_rank() <= entries[j].rect.loc.y.total_rank(),
            Edge::Bottom => best.rect.loc.y.total_rank() >= entries[j].rect.loc.y.total_rank(),
        },
    decreases entries.len(),
{
    let front = entries.drop_last();
    assert(entries[entries.len() - 1] == entries.last());
    if front.len() > 0 {
        let i = if j < front.len() {
            j
        } else {
            0
        };
        law_outermost_is_furthest_out(front, edge, i);
        let before = outermost(front, edge)->0;
        let x = choose|x: int| 0 <= x < front.len() && front[x] == before;
        assert(entries[x] == before);
    }
}

/// Where a resize is begun the topmost window under the pointer decides: the pointer on its bar, or
/// away from its edges, blocks it, and any other window below is not looked at.
pub proof fn law_resize_begins_at_the_topmost(
    t: Tree,
    entries: Seq<LeafInfo>,
    probes: Seq<ResizeProbe>,
    boxes: Seq<crate::tabs::BarBox>,
    n: int,
)
    requires
        0 <= n < entries.len(),
        probe_of(probes, entries[n].key) matches Some(probe) && probe.inside,
        forall|m: int|
            0 <= m < n ==> !(probe_of(probes, (#[trigger] entries[m]).key) matches Some(probe)
                && probe.inside),
    ensures
        t.first_resize_hit(entries, probes, boxes) == t.resize_hit(
            entries[n],
            probe_of(probes, entries[n].key)->0,
            boxes,
        ),
    decreases entries.len(),
{
    if n > 0 {
        let rest = entries.drop_first();
        assert(!(probe_of(probes, entries[0].key) matches Some(probe) && probe.inside));
        assert forall|m: int| 0 <= m < n - 1 implies !(probe_of(
            probes,
            (#[trigger] rest[m]).key,
        ) matches Some(probe) && probe.inside) by {
            assert(rest[m] == entries[m + 1]);
        }
        law_resize_begins_at_the_topmost(t, rest, probes, boxes, n - 1);
    }
}

/// What a resize begun on a window comes to: blocked on a bar or away from the edges; else of that
/// window, by the edges under the pointer, without the top one below a bar, the outer ones those at
/// the border of the group.
pub proof fn law_resize_takes_the_edges_under_the_pointer(
    t: Tree,
    entry: LeafInfo,
    probe: ResizeProbe,
    boxes: Seq<crate::tabs::BarBox>,
)
    ensures
        probe.on_bar ==> t.resize_hit(entry, probe, boxes) is Blocked,
        t.resize_hit(entry, probe, boxes) matches FloatingResizeResult::Hit(hit) ==> {
            &&& !probe.on_bar
            &&& hit.window == t.nodes[entry.key].tile->0.window.id
            &&& hit.edges.left == probe.edges.left
            &&& hit.edges.right == probe.edges.right
            &&& hit.edges.bottom == probe.edges.bottom
            &&& hit.edges.top ==> probe.edges.top
            &&& hit.external_edges.left == (probe.on_border.left && hit.edges.left)
            &&& hit.external_edges.right == (probe.on_border.right && hit.edges.right)
            &&& hit.external_edges.top == (probe.on_border.top && hit.edges.top)
            &&& hit.external_edges.bottom == (probe.on_border.bottom && hit.edges.bottom)
        },
        !probe.on_bar && (probe.edges.left || probe.edges.right || probe.edges.bottom)
            ==> t.resize_hit(entry, probe, boxes) is Hit,
        !(t.resize_hit(entry, probe, boxes) is Nothing),
{
}

// ---------------------------------------------------------------------------------------------
// Resizing
// ---------------------------------------------------------------------------------------------

/// A step of the pointer changes the width only when the left or the right edge is dragged, the
/// height only when the top or the bottom is. A window keeps to its limits; a group does not have
/// any, moves along when it is dragged by its left or top edge, and stays when by the other.
pub proof fn law_resize_step_follows_the_edges(
    resize: InteractiveResize,
    root: NodeKey,
    min: IntSize,
    max: IntSize,
    wanted: IntSize,
)
    ensures
        ({
            let step = resize.step(root, min, max, wanted);
            let e = resize.edges;
            let outer = resize.resize_container_edges;
            &&& step.root == root
            &&& step.width is Some <==> e.left || e.right
            &&& step.height is Some <==> e.top || e.bottom
            &&& step.width matches Some((_, group)) ==> group == (outer.left || outer.right)
            &&& step.height matches Some((_, group)) ==> group == (outer.top || outer.bottom)
            &&& (outer.left || outer.right) && e.left ==> step.pull_x == Pull::Whole
            &&& (outer.left || outer.right) && !e.left && e.right ==> step.pull_x == Pull::Stay
            &&& (outer.top || outer.bottom) && e.top ==> step.pull_y == Pull::Whole
            &&& (outer.top || outer.bottom) && !e.top && e.bottom ==> step.pull_y == Pull::Stay
            &&& !(outer.left || outer.right) ==> step.pull_x == Pull::Stay
            &&& !(outer.top || outer.bottom) ==> step.pull_y == Pull::Stay
            &&& (e.left || e.right) && !(outer.left || outer.right) ==> step.width
                == Some((within_limits_or_free(wanted.w, min.w, max.w), false))
            &&& (e.top || e.bottom) && !(outer.top || outer.bottom) ==> step.height
                == Some((within_limits_or_free(wanted.h, min.h, max.h), false))
        }),
{
}

/// Presets go round: on to the next one and from the last to the first, or back and from the first
/// to the last. Without a present one it is the one that fits, else the first, or going back the
/// last.
pub proof fn law_presets_go_round(len: int, idx: usize, fitting: Option<usize>)
    requires
        0 <= idx < len,
    ensures
        next_preset(len, true, Some(idx), fitting) == if idx + 1 < len {
            idx + 1
        } else {
            0
        },
        next_preset(len, false, Some(idx), fitting) == if idx > 0 {
            idx - 1
        } else {
            len - 1
        },
        next_preset(len, true, None, Some(idx)) == idx,
        next_preset(len, false, None, Some(idx)) == idx,
        next_preset(len, true, None, None) == 0,
        next_preset(len, false, None, None) == len - 1,
{
    let i = idx as int;
    assert((i + 1) % len == if i + 1 < len {
        i + 1
    } else {
        0
    }) by (nonlinear_arith)
        requires
            0 <= i < len,
    ;
    assert((i + len - 1) % len == if i > 0 {
        i - 1
    } else {
        len - 1
    }) by (nonlinear_arith)
        requires
            0 <= i < len,
    ;
}

proof fn lemma_enclosing(t: Tree, k: NodeKey, layout: Layout)
    requires
        t.wf(),
        t.enclosing(k, layout) is Some,
    ensures
        ({
            let (p, i) = t.enclosing(k, layout)->0;
            &&& t.nodes[p].layout == layout
            &&& exists|c: NodeKey| #[trigger] t.under(k, c) && t.sits(c, p, i)
            &&& forall|q: NodeKey|
                #[trigger] t.under(k, q) && q != k && t.under(q, p) && q != p && t.is_parent(q)
                    ==> t.nodes[q].layout != layout
        }),
    decreases depth(t.parents, k),
{
    let p = t.parents[k];
    lemma_depth(t.parents, k);
    assert(t.under(k, k));
    if t.is_parent(p) && t.nodes[p].layout == layout {
        let kids = t.kids(p);
        let w = choose|w: int| 0 <= w < kids.len() && kids[w] == k;
        lemma_slot(t, p, k, w);
        assert(t.sits(k, p, kids.index_of(k)));
        assert forall|q: NodeKey|
            #[trigger] t.under(k, q) && q != k && t.under(q, p) && q != p && t.is_parent(q) implies t.nodes[q].layout
            != layout by {
            assert(t.under(p, q));
            lemma_under_depth(t.parents, p, q);
            lemma_under_depth(t.parents, q, p);
        }
    } else {
        lemma_enclosing(t, p, layout);
        let (top, i) = t.enclosing(k, layout)->0;
        let c = choose|c: NodeKey| #[trigger] t.under(p, c) && t.sits(c, top, i);
        assert(t.under(k, c));
        assert forall|q: NodeKey|
            #[trigger] t.under(k, q) && q != k && t.under(q, top) && q != top && t.is_parent(q) implies t.nodes[q].layout
            != layout by {
            assert(t.under(p, q));
        }
    }
}

/// A resize along an axis is of a child exactly where the nearest container around the window that
/// runs along the axis holds several; it is then of the child that holds the window. By an edge it
/// is always of the group.
pub proof fn law_resize_is_of_the_nearest_split(
    t: Tree,
    id: WindowId,
    root: NodeKey,
    axis: ResizeAxis,
    direction: Direction,
)
    requires
        t.wf(),
        t.floating_window(id) is Some,
    ensures
        t.resize_subject(Some(id), root, ResizeRequest::Edge(direction)) == Some(
            ResizeSubject::Group(root),
        ),
        t.resize_subject(Some(id), root, ResizeRequest::Axis(axis)) is Some,
        t.resize_subject(Some(id), root, ResizeRequest::Axis(axis)) matches Some(
            ResizeSubject::Group(r),
        ) ==> r == root,
        t.enclosing(t.floating_window(id)->0, match axis {
            ResizeAxis::Horizontal => Layout::SplitH,
            ResizeAxis::Vertical => Layout::SplitV,
        }) matches Some((p, i)) ==> {
            let k = t.floating_window(id)->0;
            let layout = match axis {
                ResizeAxis::Horizontal => Layout::SplitH,
                ResizeAxis::Vertical => Layout::SplitV,
            };
            &&& t.nodes[p].layout == layout
            &&& exists|c: NodeKey| #[trigger] t.under(k, c) && t.sits(c, p, i)
            &&& forall|q: NodeKey|
                #[trigger] t.under(k, q) && q != k && t.under(q, p) && q != p && t.is_parent(q)
                    ==> t.nodes[q].layout != layout
            &&& t.resize_subject(Some(id), root, ResizeRequest::Axis(axis)) == Some(
                if t.nodes[p].children.len() > 1 {
                    ResizeSubject::Child { root, parent: p, child_idx: i as usize }
                } else {
                    ResizeSubject::Group(root)
                },
            )
        },
{
    let k = t.floating_window(id)->0;
    let layout = match axis {
        ResizeAxis::Horizontal => Layout::SplitH,
        ResizeAxis::Vertical => Layout::SplitV,
    };
    if t.enclosing(k, layout) is Some {
        lemma_enclosing(t, k, layout);
        let (p, i) = t.enclosing(k, layout)->0;
        let c = choose|c: NodeKey| #[trigger] t.under(k, c) && t.sits(c, p, i);
        assert(t.is_parent(p)) by {
            assert(t.nodes[p].children.len() > 0);
        }
    }
}

/// In tabs or stacks the tab is the top decoration of a window; anywhere else a window has all its
/// edges. A window is drawn as focused exactly when the floating side is and it is the active one,
/// with no container selected around it, or fills the screen.
pub proof fn law_looks_follow_the_focus(t: Tree, entry: LeafInfo, side_active: bool)
    requires
        t.wf(),
        t.is_view(entry.key),
    ensures
        ({
            let look = t.look(entry, side_active);
            let id = t.nodes[entry.key].tile->0.window.id;
            &&& look.key == entry.key
            &&& look.window == id
            &&& look.edges.left && look.edges.right && look.edges.bottom
            &&& look.edges.top <==> !(t.parents.contains_key(entry.key) && t.is_parent(
                t.parents[entry.key],
            ) && (t.nodes[t.parents[entry.key]].layout == Layout::Tabbed
                || t.nodes[t.parents[entry.key]].layout == Layout::Stacked))
            &&& look.fullscreen <==> t.floating_fullscreen_id() == Some(id)
            &&& look.focused ==> side_active && (look.fullscreen || t.active_id() == Some(id))
            &&& side_active && look.fullscreen ==> look.focused
            &&& side_active && t.active_id() == Some(id) && t.seat.selected is None ==> look.focused
        }),
{
}

} // verus!
