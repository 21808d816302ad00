//! What an arrange says and does.

use crate::arrange::{box_in, listed, Given};
use crate::axis::{Layout, NodeKey};
use crate::cache::{requested, ArrangeScope, Arrangement, LeafDecor, LeafInfo, Pending};
use crate::commit::{
    by_branch, of_branch, off_branch, ready, request_in, waiting, ArrangeArea, BranchPass,
    LayoutRequest,
};
use crate::gauges::nothing_hides;
use crate::measure::Rect;
use crate::paths::lemma_at_path_push;
use crate::tile::TileRequest;
use crate::tree::{depth, lemma_depth, lemma_under_depth, lemma_under_trans, room, Tree};
use crate::walk::lemma_slot;
use vstd::prelude::*;

verus! {

/// What is said of one window in a pass over `k`.
pub open spec fn placed_well(
    t: Tree,
    k: NodeKey,
    w: NodeKey,
    visible: bool,
    given: Given,
    info: LeafInfo,
) -> bool {
    &&& info.key == w
    &&& t.is_view(w)
    &&& t.under(w, k)
    &&& info.branch == given.branch
    &&& w != k ==> info.rect == box_in(given.boxes, w)
    &&& info.visible <==> visible && nothing_hides(t, w, k)
    &&& !info.workspace_fullscreen
}

/// What hides a window below a node: what hides it below the child, or the node showing another.
pub(crate) proof fn lemma_hidden_step(t: Tree, w: NodeKey, c: NodeKey, k: NodeKey)
    requires
        t.wf(),
        t.under(w, c),
        t.parents.contains_key(c),
        t.parents[c] == k,
        t.is_parent(k),
    ensures
        nothing_hides(t, w, k) <==> nothing_hides(t, w, c) && (t.nodes[k].layout == Layout::Tabbed
            || t.nodes[k].layout == Layout::Stacked ==> t.active(k) == Some(c)),
{
    assert(t.under(c, c) && t.under(k, k));
    assert(t.under(c, k));
    lemma_depth(t.parents, c);
    if nothing_hides(t, w, k) {
        assert forall|b: NodeKey|
            #[trigger] t.under(w, b) && t.under(b, c) && b != c && t.is_parent(t.parents[b]) && (
            t.nodes[t.parents[b]].layout == Layout::Tabbed || t.nodes[t.parents[b]].layout
                == Layout::Stacked) implies t.active(t.parents[b]) == Some(b) by {
            lemma_under_trans(t.parents, b, c, k);
            if b == k {
                lemma_under_depth(t.parents, k, c);
            }
        }
    }
    if nothing_hides(t, w, c) && (t.nodes[k].layout == Layout::Tabbed || t.nodes[k].layout
        == Layout::Stacked ==> t.active(k) == Some(c)) {
        assert forall|b: NodeKey|
            #[trigger] t.under(w, b) && t.under(b, k) && b != k && t.is_parent(t.parents[b]) && (
            t.nodes[t.parents[b]].layout == Layout::Tabbed || t.nodes[t.parents[b]].layout
                == Layout::Stacked) implies t.active(t.parents[b]) == Some(b) by {
            crate::moves::lemma_between(t, w, c, b);
        }
    }
}

/// The child a switcher shows, by its place.
pub(crate) proof fn lemma_shown_index(t: Tree, k: NodeKey, i: int)
    requires
        t.wf(),
        0 <= i < t.kids(k).len(),
    ensures
        i == t.shown_index(k) <==> t.active(k) == Some(t.kids(k)[i]),
{
    let kids = t.kids(k);
    assert(t.active(k) is Some);
    crate::walk::lemma_active_listed(t, k);
    let c = t.active(k)->0;
    let w = choose|w: int| 0 <= w < kids.len() && kids[w] == c;
    lemma_slot(t, k, c, w);
    lemma_slot(t, k, kids[i], i);
}

proof fn lemma_arranged(
    t: Tree,
    k: NodeKey,
    rect: Rect,
    node_rect: Rect,
    visible: bool,
    ctx: LeafDecor,
    path: Seq<usize>,
    given: Given,
)
    requires
        t.wf(),
    ensures
        ({
            let a = t.arranged(k, rect, node_rect, visible, ctx, path, given);
            &&& a.leaves.len() == t.leaves(k).len()
            &&& forall|n: int|
                0 <= n < a.leaves.len() ==> placed_well(
                    t,
                    k,
                    t.leaves(k)[n],
                    visible,
                    given,
                    #[trigger] a.leaves[n],
                )
            &&& t.is_view(k) ==> a.leaves[0].rect == rect
        }),
    decreases room(t.parents, k), t.kids(k).len() + 2,
{
    let a = t.arranged(k, rect, node_rect, visible, ctx, path, given);
    if t.is_view(k) {
        assert(t.under(k, k));
        assert(nothing_hides(t, k, k)) by {
            assert forall|c: NodeKey| #[trigger] t.under(k, c) && t.under(c, k) implies c == k by {
                lemma_under_depth(t.parents, k, c);
                lemma_under_depth(t.parents, c, k);
            }
        }
    } else if t.is_parent(k) {
        lemma_arranged_from(t, k, rect, visible, ctx, path, 0, given);
        let more = t.arranged_from(k, rect, visible, ctx, path, 0, given);
        assert(a.leaves =~= more.leaves);
    } else {
        assert(t.leaves(k).len() == 0);
    }
}

proof fn lemma_arranged_from(
    t: Tree,
    k: NodeKey,
    rect: Rect,
    visible: bool,
    ctx: LeafDecor,
    path: Seq<usize>,
    i: int,
    given: Given,
)
    requires
        t.wf(),
        0 <= i,
    ensures
        ({
            let a = t.arranged_from(k, rect, visible, ctx, path, i, given);
            &&& a.leaves.len() == t.leaves_from(k, i).len()
            &&& forall|n: int|
                0 <= n < a.leaves.len() ==> placed_well(
                    t,
                    k,
                    t.leaves_from(k, i)[n],
                    visible,
                    given,
                    #[trigger] a.leaves[n],
                )
        }),
    decreases room(t.parents, k), t.kids(k).len() - i + 1,
{
    if i < t.kids(k).len() {
        let c = t.kids(k)[i];
        lemma_slot(t, k, c, i);
        lemma_depth(t.parents, c);
        let own = box_in(given.boxes, c);
        let split = t.nodes[k].layout.is_split();
        let seen = visible && (split || i == t.shown_index(k));
        let node_rect = if !split && t.is_view(c) {
            rect
        } else {
            own
        };
        let decor = t.child_decor(k, c, ctx, given.bar);
        lemma_arranged(t, c, own, node_rect, seen, decor, path.push(i as usize), given);
        lemma_arranged_from(t, k, rect, visible, ctx, path, i + 1, given);
        lemma_shown_index(t, k, i);
        let first = t.arranged(c, own, node_rect, seen, decor, path.push(i as usize), given);
        let rest = t.arranged_from(k, rect, visible, ctx, path, i + 1, given);
        let a = t.arranged_from(k, rect, visible, ctx, path, i, given);
        assert(a.leaves == first.leaves + rest.leaves);
        assert(t.under(c, k)) by {
            assert(t.under(k, k));
        }
        assert forall|n: int| 0 <= n < a.leaves.len() implies placed_well(
            t,
            k,
            t.leaves_from(k, i)[n],
            visible,
            given,
            #[trigger] a.leaves[n],
        ) by {
            if n < first.leaves.len() {
                let w = t.leaves(c)[n];
                assert(a.leaves[n] == first.leaves[n]);
                assert(t.leaves_from(k, i)[n] == w);
                assert(placed_well(t, c, w, seen, given, first.leaves[n]));
                lemma_under_trans(t.parents, w, c, k);
                lemma_hidden_step(t, w, c, k);
                lemma_under_depth(t.parents, w, c);
                if t.is_view(c) {
                    assert(t.leaves(c) == seq![c]);
                } else if w == c {
                    assert(t.is_view(c));
                }
            } else {
                let m = n - first.leaves.len();
                assert(a.leaves[n] == rest.leaves[m]);
                assert(t.leaves_from(k, i)[n] == t.leaves_from(k, i + 1)[m]);
            }
        }
    }
}

/// A pass over a node has an entry for every window below it, in their order and for no others:
/// each in the branch the pass is of, in the box that was reckoned for it, and visible exactly when
/// every switcher on the way shows it.
pub proof fn law_pass_places_every_window(
    t: Tree,
    k: NodeKey,
    rect: Rect,
    node_rect: Rect,
    visible: bool,
    ctx: LeafDecor,
    path: Seq<usize>,
    given: Given,
)
    requires
        t.wf(),
    ensures
        ({
            let a = t.arranged(k, rect, node_rect, visible, ctx, path, given);
            &&& a.leaves.len() == t.leaves(k).len()
            &&& forall|n: int|
                0 <= n < a.leaves.len() ==> placed_well(
                    t,
                    k,
                    t.leaves(k)[n],
                    visible,
                    given,
                    #[trigger] a.leaves[n],
                )
            &&& t.is_view(k) ==> a.leaves[0].rect == rect
        }),
{
    lemma_arranged(t, k, rect, node_rect, visible, ctx, path, given);
}

proof fn lemma_arranged_paths(
    t: Tree,
    top: NodeKey,
    k: NodeKey,
    rect: Rect,
    node_rect: Rect,
    visible: bool,
    ctx: LeafDecor,
    path: Seq<usize>,
    given: Given,
    n: int,
)
    requires
        t.wf(),
        forall|q: NodeKey| #[trigger]
            t.nodes.contains_key(q) ==> t.nodes[q].children.len() <= usize::MAX,
        t.at_path(top, path) == Some(k),
        0 <= n < t.arranged(k, rect, node_rect, visible, ctx, path, given).leaves.len(),
    ensures
        ({
            let info = t.arranged(k, rect, node_rect, visible, ctx, path, given).leaves[n];
            t.at_path(top, info.path) == Some(info.key)
        }),
    decreases room(t.parents, k), t.kids(k).len() + 2,
{
    let a = t.arranged(k, rect, node_rect, visible, ctx, path, given);
    if !t.is_view(k) {
        let more = t.arranged_from(k, rect, visible, ctx, path, 0, given);
        assert(a.leaves =~= more.leaves);
        lemma_arranged_from_paths(t, top, k, rect, visible, ctx, path, 0, given, n);
    }
}

proof fn lemma_arranged_from_paths(
    t: Tree,
    top: NodeKey,
    k: NodeKey,
    rect: Rect,
    visible: bool,
    ctx: LeafDecor,
    path: Seq<usize>,
    i: int,
    given: Given,
    n: int,
)
    requires
        t.wf(),
        forall|q: NodeKey| #[trigger]
            t.nodes.contains_key(q) ==> t.nodes[q].children.len() <= usize::MAX,
        t.at_path(top, path) == Some(k),
        0 <= i,
        0 <= n < t.arranged_from(k, rect, visible, ctx, path, i, given).leaves.len(),
    ensures
        ({
            let info = t.arranged_from(k, rect, visible, ctx, path, i, given).leaves[n];
            t.at_path(top, info.path) == Some(info.key)
        }),
    decreases room(t.parents, k), t.kids(k).len() - i + 1,
{
    let c = t.kids(k)[i];
    lemma_slot(t, k, c, i);
    lemma_depth(t.parents, c);
    assert(t.nodes.contains_key(k));
    let own = box_in(given.boxes, c);
    let split = t.nodes[k].layout.is_split();
    let seen = visible && (split || i == t.shown_index(k));
    let node_rect = if !split && t.is_view(c) {
        rect
    } else {
        own
    };
    let decor = t.child_decor(k, c, ctx, given.bar);
    let first = t.arranged(c, own, node_rect, seen, decor, path.push(i as usize), given);
    let rest = t.arranged_from(k, rect, visible, ctx, path, i + 1, given);
    lemma_at_path_push(t, top, path, i as usize);
    if n < first.leaves.len() {
        lemma_arranged_paths(
            t,
            top,
            c,
            own,
            node_rect,
            seen,
            decor,
            path.push(i as usize),
            given,
            n,
        );
    } else {
        lemma_arranged_from_paths(
            t,
            top,
            k,
            rect,
            visible,
            ctx,
            path,
            i + 1,
            given,
            n - first.leaves.len(),
        );
    }
}

/// The path an arrange gives a window leads to it from the node the pass is over.
pub proof fn law_paths_of_a_pass_lead_to_the_windows(
    arena: crate::arena::ContainerArena,
    k: NodeKey,
    rect: Rect,
    ctx: LeafDecor,
    given: Given,
    n: int,
)
    requires
        arena.wf(),
        0 <= n < arena@.arranged(k, rect, rect, true, ctx, Seq::empty(), given).leaves.len(),
    ensures
        ({
            let info = arena@.arranged(k, rect, rect, true, ctx, Seq::empty(), given).leaves[n];
            arena@.at_path(k, info.path) == Some(info.key)
        }),
{
    crate::arena::law_child_lists_fit(arena);
    lemma_arranged_paths(arena@, k, k, rect, rect, true, ctx, Seq::empty(), given, n);
}

/// The decoration of a child: in tabs and stacks the bar is the container's, and the child knows
/// that it is in one; side by side or one above the other a window has a title bar of its own if
/// there are any; a window that fills the output has none.
pub proof fn law_decoration_of_a_child(
    t: Tree,
    p: NodeKey,
    c: NodeKey,
    ctx: LeafDecor,
    bar: crate::measure::Real,
)
    ensures
        ({
            let d = t.child_decor(p, c, ctx, bar);
            let zero = crate::measure::Real { bits: 0 };
            &&& t.nodes[p].layout == Layout::Tabbed || t.nodes[p].layout == Layout::Stacked
                ==> !d.draw_titlebar && d.tab_bar_offset == zero && d.in_tabbed_context
            &&& (t.nodes[p].layout == Layout::SplitH || t.nodes[p].layout == Layout::SplitV) ==> {
                &&& d.in_tabbed_context == ctx.in_tabbed_context
                &&& t.is_view(c) && bar.positive() ==> d.draw_titlebar && d.tab_bar_offset == bar
                &&& !t.is_view(c) || bar.at_most_zero() ==> !d.draw_titlebar && d.tab_bar_offset
                    == zero
            }
            &&& t.nodes[c].tile->0.window.sizing_mode is Fullscreen ==> !t.own_decor(
                c,
                d,
            ).draw_titlebar && t.own_decor(c, d).tab_bar_offset == zero
            &&& t.nodes[c].tile->0.window.sizing_mode is Normal ==> t.own_decor(c, d) == d
        }),
{
}

// ---------------------------------------------------------------------------------------------
// What is arranged
// ---------------------------------------------------------------------------------------------

/// An arrange of everything is over the tiled side and over every group in its own box; while
/// something is fullscreen it is over that alone. An arrange of a part is over that part in the box
/// it has.
pub proof fn law_what_is_arranged(t: Tree, i: int, k: NodeKey)
    requires
        0 <= i < t.floating.len(),
        t.has(k),
    ensures
        ({
            let all = t.arrange_passes(ArrangeScope::Workspace);
            let part = t.arrange_passes(ArrangeScope::Subtree(k));
            &&& t.fullscreen is None ==> {
                &&& all.len() == t.floating.len() + 1
                &&& all[0] == (t.root, ArrangeArea::Tiling)
                &&& all[i + 1] == (
                    t.floating[i].key,
                    ArrangeArea::Own(t.floating[i].geometry.target),
                )
            }
            &&& t.fullscreen == Some(k) ==> all.len() == 1 && all[0].0 == k && (t.is_view(k)
                ==> all[0].1 == ArrangeArea::Tiling) && (!t.is_view(k) ==> all[0].1
                == ArrangeArea::Output)
            &&& part.len() == 1
            &&& part[0].0 == k
        }),
{
}

/// An arrange that is asked for is remembered after those asked for before, unless the same one was
/// asked for last.
pub proof fn law_arranges_queue_up(before: Seq<ArrangeScope>, scope: ArrangeScope)
    ensures
        requested(before, scope).len() > 0,
        requested(before, scope).last() == scope,
        before.is_prefix_of(requested(before, scope)),
        requested(before, scope).len() <= before.len() + 1,
{
}

proof fn lemma_request_in(requests: Seq<(NodeKey, LayoutRequest)>, k: NodeKey)
    ensures
        request_in(requests, k) is None <==> forall|i: int|
            0 <= i < requests.len() ==> (#[trigger] requests[i]).0 != k,
    decreases requests.len(),
{
    if requests.len() > 0 && requests[0].0 != k {
        let rest = requests.drop_first();
        lemma_request_in(rest, k);
        if request_in(rest, k) is None {
            assert forall|i: int| 0 <= i < requests.len() implies (#[trigger] requests[i]).0 != k by {
                if i > 0 {
                    assert(rest[i - 1] == requests[i]);
                }
            }
        } else {
            let i = choose|i: int| 0 <= i < rest.len() && (#[trigger] rest[i]).0 == k;
            assert(requests[i + 1] == rest[i]);
        }
    }
}

/// A window of a pass has to change exactly when it is not there, was not arranged before, or is
/// asked for something else than it was.
pub proof fn law_what_has_to_change(
    t: Tree,
    leaves: Seq<LeafInfo>,
    current: Seq<(NodeKey, LayoutRequest)>,
    next: Seq<(NodeKey, LayoutRequest)>,
    k: NodeKey,
)
    ensures
        t.changed_keys(leaves, current, next).contains(k) <==> (exists|i: int|
            0 <= i < leaves.len() && (#[trigger] leaves[i]).key == k) && !(t.is_view(k) && listed(
            t.caches.leaves,
            k,
        ) && request_in(current, k) is Some && request_in(current, k) == request_in(next, k)),
    decreases leaves.len(),
{
    if leaves.len() > 0 {
        let front = leaves.drop_last();
        law_what_has_to_change(t, front, current, next, k);
        let rest = t.changed_keys(front, current, next);
        let all = t.changed_keys(leaves, current, next);
        assert(leaves[leaves.len() - 1] == leaves.last());
        if exists|i: int| 0 <= i < front.len() && (#[trigger] front[i]).key == k {
            let i = choose|i: int| 0 <= i < front.len() && (#[trigger] front[i]).key == k;
            assert(leaves[i] == front[i]);
        }
        if exists|i: int| 0 <= i < leaves.len() && (#[trigger] leaves[i]).key == k {
            let i = choose|i: int| 0 <= i < leaves.len() && (#[trigger] leaves[i]).key == k;
            if i < front.len() {
                assert(front[i].key == k);
            }
        }
        if all.len() > rest.len() {
            assert(all[rest.len() as int] == leaves.last().key);
            if rest.contains(k) {
                let j = choose|j: int| 0 <= j < rest.len() && rest[j] == k;
                assert(all[j] == k);
            }
            if all.contains(k) {
                let j = choose|j: int| 0 <= j < all.len() && all[j] == k;
                if j < rest.len() {
                    assert(rest[j] == k);
                }
            }
        }
    }
}

/// A pass in which nothing has to change is committed at once; one in which something has waits,
/// with the cached boxes as they were, until the windows have answered. A branch that waits already
/// is left alone, and arranged again later.
pub proof fn law_a_pass_waits_for_the_windows(
    t: Tree,
    pass: BranchPass,
    held: Seq<Pending>,
    animate: bool,
    i: int,
)
    ensures
        t.changed_keys(pass.data.leaves, pass.current, pass.next).len() == 0 ==> t.committed_unheld(
            pass,
            animate,
        ) == t.applied(pass.branch, pass.data),
        t.changed_keys(pass.data.leaves, pass.current, pass.next).len() > 0 && !pass.released ==> {
            let u = t.committed_unheld(pass, animate);
            &&& u.caches.leaves == t.caches.leaves
            &&& u.caches.pending == t.caches.pending.push(
                Pending { branch: pass.branch, data: pass.data, released: false },
            )
        },
        0 <= i < held.len() && held[i].branch == pass.branch ==> t.committed_pass(
            pass,
            held,
            animate,
        ) == t.wanting_relayout(),
{
    lemma_sized_caches(t, pass.data.leaves, animate);
}

proof fn lemma_sized_caches(t: Tree, leaves: Seq<LeafInfo>, animate: bool)
    ensures
        t.sized(leaves, animate).caches == t.caches,
        forall|k: NodeKey| #[trigger] t.sized(leaves, animate).is_view(k) == t.is_view(k),
        forall|k: NodeKey|
            t.is_view(k) ==> (#[trigger] t.sized(leaves, animate).nodes[k].tile->0).window.sizing_mode
                is Fullscreen == t.nodes[k].tile->0.window.sizing_mode is Fullscreen,
    decreases leaves.len(),
{
    if leaves.len() > 0 {
        lemma_sized_caches(t, leaves.drop_last(), animate);
        let s = t.sized(leaves.drop_last(), animate);
        let k = leaves.last().key;
        assert(s.is_view(k) == t.is_view(k));
        let u = t.sized(leaves, animate);
        assert forall|x: NodeKey| #[trigger] u.is_view(x) == t.is_view(x) by {
            assert(s.is_view(x) == t.is_view(x));
        }
        assert forall|x: NodeKey| t.is_view(x) implies (
        #[trigger] u.nodes[x].tile->0).window.sizing_mode is Fullscreen
            == t.nodes[x].tile->0.window.sizing_mode is Fullscreen by {
            assert(s.is_view(x) == t.is_view(x));
            assert(s.nodes[x].tile->0.window.sizing_mode is Fullscreen
                == t.nodes[x].tile->0.window.sizing_mode is Fullscreen);
        }
    }
}

/// Each window of a pass is asked for the size of its box, or to fill the output if it is
/// fullscreen.
pub proof fn law_windows_are_asked_for_their_boxes(
    t: Tree,
    leaves: Seq<LeafInfo>,
    animate: bool,
    i: int,
)
    requires
        0 <= i < leaves.len(),
        t.is_view(leaves[i].key),
        forall|j: int| i < j < leaves.len() ==> (#[trigger] leaves[j]).key != leaves[i].key,
    ensures
        t.sized(leaves, animate).nodes[leaves[i].key].tile->0.request == Some(
            if t.nodes[leaves[i].key].tile->0.window.sizing_mode is Fullscreen {
                TileRequest::Fullscreen { animate }
            } else {
                TileRequest::TileSize { tile_size: leaves[i].rect.size, animate }
            },
        ),
    decreases leaves.len(),
{
    let front = leaves.drop_last();
    let k = leaves[i].key;
    lemma_sized_caches(t, front, animate);
    let s = t.sized(front, animate);
    assert(s.is_view(k) == t.is_view(k));
    assert(s.nodes[k].tile->0.window.sizing_mode is Fullscreen
        == t.nodes[k].tile->0.window.sizing_mode is Fullscreen);
    if i < front.len() {
        assert forall|j: int| i < j < front.len() implies (#[trigger] front[j]).key
            != front[i].key by {
            assert(leaves[j].key != leaves[i].key);
        }
        law_windows_are_asked_for_their_boxes(t, front, animate, i);
        assert(leaves[leaves.len() - 1].key != k);
        assert(front[i] == leaves[i]);
    } else {
        assert(leaves.last() == leaves[i]);
    }
}

// ---------------------------------------------------------------------------------------------
// What is committed
// ---------------------------------------------------------------------------------------------

proof fn lemma_parted(leaves: Seq<LeafInfo>, branch: NodeKey, e: LeafInfo)
    ensures
        of_branch(leaves, branch).contains(e) <==> leaves.contains(e) && e.branch == branch,
        off_branch(leaves, branch).contains(e) <==> leaves.contains(e) && e.branch != branch,
    decreases leaves.len(),
{
    if leaves.len() > 0 {
        let front = leaves.drop_last();
        lemma_parted(front, branch, e);
        assert(leaves =~= front.push(leaves.last()));
        lemma_pushed(front, leaves.last(), e);
        lemma_pushed(of_branch(front, branch), leaves.last(), e);
        lemma_pushed(off_branch(front, branch), leaves.last(), e);
    }
}

proof fn lemma_pushed(s: Seq<LeafInfo>, last: LeafInfo, e: LeafInfo)
    ensures
        s.push(last).contains(e) <==> s.contains(e) || e == last,
{
    let all = s.push(last);
    if s.contains(e) {
        let j = choose|j: int| 0 <= j < s.len() && s[j] == e;
        assert(all[j] == e);
    }
    if all.contains(e) {
        let j = choose|j: int| 0 <= j < all.len() && all[j] == e;
        if j < s.len() {
            assert(s[j] == e);
        }
    }
    assert(all[s.len() as int] == last);
}

proof fn lemma_joined(a: Seq<LeafInfo>, b: Seq<LeafInfo>, e: LeafInfo)
    ensures
        (a + b).contains(e) <==> a.contains(e) || b.contains(e),
{
    let all = a + b;
    if a.contains(e) {
        let j = choose|j: int| 0 <= j < a.len() && a[j] == e;
        assert(all[j] == e);
    }
    if b.contains(e) {
        let j = choose|j: int| 0 <= j < b.len() && b[j] == e;
        assert(all[a.len() + j] == e);
    }
    if all.contains(e) {
        let j = choose|j: int| 0 <= j < all.len() && all[j] == e;
        if j < a.len() {
            assert(a[j] == e);
        } else {
            assert(b[j - a.len()] == e);
        }
    }
}

proof fn lemma_by_branch(leaves: Seq<LeafInfo>, branches: Seq<NodeKey>, e: LeafInfo)
    ensures
        by_branch(leaves, branches).contains(e) <==> leaves.contains(e),
    decreases branches.len(),
{
    if branches.len() > 0 {
        let rest = off_branch(leaves, branches[0]);
        lemma_parted(leaves, branches[0], e);
        lemma_by_branch(rest, branches.drop_first(), e);
        lemma_joined(
            of_branch(leaves, branches[0]),
            by_branch(rest, branches.drop_first()),
            e,
        );
    }
}

proof fn lemma_outlasting(
    t: Tree,
    leaves: Seq<LeafInfo>,
    branch: NodeKey,
    incoming: Seq<LeafInfo>,
    e: LeafInfo,
)
    ensures
        t.outlasting(leaves, branch, incoming).contains(e) <==> leaves.contains(e) && e.branch
            != branch && !listed(incoming, e.key) && t.has(e.key),
    decreases leaves.len(),
{
    if leaves.len() > 0 {
        let front = leaves.drop_last();
        lemma_outlasting(t, front, branch, incoming, e);
        assert(leaves =~= front.push(leaves.last()));
        lemma_pushed(front, leaves.last(), e);
        lemma_pushed(t.outlasting(front, branch, incoming), leaves.last(), e);
    }
}

proof fn lemma_dressed_alike(t: Tree, boxes: Seq<(NodeKey, Rect)>)
    ensures
        t.with_geometries(boxes).caches == t.caches,
        forall|k: NodeKey| #[trigger] t.with_geometries(boxes).has(k) == t.has(k),
    decreases boxes.len(),
{
    if boxes.len() > 0 {
        lemma_dressed_alike(t, boxes.drop_last());
        let s = t.with_geometries(boxes.drop_last());
        let u = t.with_geometries(boxes);
        assert forall|k: NodeKey| #[trigger] u.has(k) == t.has(k) by {
            assert(s.has(k) == t.has(k));
        }
    }
}

proof fn lemma_decorated_alike(t: Tree, decors: Seq<(NodeKey, LeafDecor)>)
    ensures
        t.with_decors(decors).caches == t.caches,
        forall|k: NodeKey| #[trigger] t.with_decors(decors).has(k) == t.has(k),
    decreases decors.len(),
{
    if decors.len() > 0 {
        lemma_decorated_alike(t, decors.drop_last());
        let s = t.with_decors(decors.drop_last());
        let u = t.with_decors(decors);
        assert forall|k: NodeKey| #[trigger] u.has(k) == t.has(k) by {
            assert(s.has(k) == t.has(k));
        }
    }
}

/// After a pass is committed the cache holds the entries of the pass, those of the windows of other
/// branches that the pass does not speak of, and nothing else.
pub proof fn law_commit_replaces_the_branch(t: Tree, branch: NodeKey, data: Arrangement, e: LeafInfo)
    ensures
        t.applied(branch, data).caches.leaves.contains(e) <==> data.leaves.contains(e) || (
        t.caches.leaves.contains(e) && e.branch != branch && !listed(data.leaves, e.key) && t.has(
            e.key,
        )),
        t.applied(branch, data).caches.pending == t.caches.pending,
{
    lemma_dressed_alike(t, data.boxes);
    let a = t.with_geometries(data.boxes);
    lemma_decorated_alike(a, data.decors);
    let b = a.with_decors(data.decors);
    assert(b.has(e.key) == a.has(e.key));
    assert(a.has(e.key) == t.has(e.key));
    let kept = b.outlasting(b.caches.leaves, branch, data.leaves);
    lemma_outlasting(b, b.caches.leaves, branch, data.leaves, e);
    lemma_joined(kept, data.leaves, e);
    lemma_by_branch(kept + data.leaves, b.branches(), e);
}

/// The arranges that were answered and those still waiting are all there are, each in one of the
/// two.
pub proof fn law_answered_or_waiting(pending: Seq<Pending>, p: Pending)
    ensures
        ready(pending).contains(p) <==> pending.contains(p) && p.released,
        waiting(pending).contains(p) <==> pending.contains(p) && !p.released,
    decreases pending.len(),
{
    if pending.len() > 0 {
        let front = pending.drop_last();
        law_answered_or_waiting(front, p);
        assert(pending =~= front.push(pending.last()));
        lemma_pushed_pending(front, pending.last(), p);
        lemma_pushed_pending(ready(front), pending.last(), p);
        lemma_pushed_pending(waiting(front), pending.last(), p);
    }
}

proof fn lemma_pushed_pending(s: Seq<Pending>, last: Pending, e: Pending)
    ensures
        s.push(last).contains(e) <==> s.contains(e) || e == last,
{
    let all = s.push(last);
    if s.contains(e) {
        let j = choose|j: int| 0 <= j < s.len() && s[j] == e;
        assert(all[j] == e);
    }
    if all.contains(e) {
        let j = choose|j: int| 0 <= j < all.len() && all[j] == e;
        if j < s.len() {
            assert(s[j] == e);
        }
    }
    assert(all[s.len() as int] == last);
}

} // verus!
