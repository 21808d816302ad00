//! What dragging an edge of a tiled window resizes.

use crate::axis::{Layout, NodeKey};
use crate::resize::{law_resize_target_is_a_neighbour, Edge, ResizeEdge, ResizeTarget};
use crate::tree::{depth, lemma_depth, lemma_under_depth, lemma_under_trans, Tree};
use crate::walk::lemma_slot;
use vstd::prelude::*;

verus! {

/// The side of an edge: one place back in a list, or one place on.
pub open spec fn side(edge: Edge) -> int {
    match edge {
        Edge::Left | Edge::Top => -1,
        Edge::Right | Edge::Bottom => 1,
    }
}

/// The edge across from an edge.
pub open spec fn across(edge: Edge) -> Edge {
    match edge {
        Edge::Left => Edge::Right,
        Edge::Right => Edge::Left,
        Edge::Top => Edge::Bottom,
        Edge::Bottom => Edge::Top,
    }
}

/// The layout whose children an edge separates.
pub open spec fn divided_by(edge: Edge) -> Layout {
    match edge {
        Edge::Left | Edge::Right => Layout::SplitH,
        Edge::Top | Edge::Bottom => Layout::SplitV,
    }
}

/// One edge on its own.
pub open spec fn only(edge: Edge) -> ResizeEdge {
    ResizeEdge {
        left: edge == Edge::Left,
        right: edge == Edge::Right,
        top: edge == Edge::Top,
        bottom: edge == Edge::Bottom,
    }
}

/// Whether one of the edges dragged lies along an axis.
pub open spec fn drags_along(edges: ResizeEdge, layout: Layout) -> bool {
    match layout {
        Layout::SplitH => edges.left || edges.right,
        Layout::SplitV => edges.top || edges.bottom,
        _ => false,
    }
}

impl Tree {
    /// Whether `c`, in the list of a split laid out so, has a sibling on the side of an edge.
    pub open spec fn bordered(self, c: NodeKey, edge: Edge, layout: Layout) -> bool {
        exists|p: NodeKey, i: int| #[trigger]
            self.sits(c, p, i) && self.nodes[p].layout == layout && 0 <= i + side(edge)
                < self.nodes[p].children.len()
    }
}

/// The search for what an edge resizes is complete: wherever the window or something around it
/// is a child of a split laid out along the axis and has a sibling on the side of the edge, that
/// pair is among the targets, the nearer before the further, with the extent of the child along
/// the axis.
pub proof fn law_every_boundary_is_found(
    t: Tree,
    k: NodeKey,
    edge: Edge,
    layout: Layout,
    c: NodeKey,
    p: NodeKey,
    i: int,
) -> (n: int)
    requires
        t.wf(),
        t.under(k, c),
        t.sits(c, p, i),
        t.nodes[p].layout == layout,
        0 <= i + side(edge) < t.nodes[p].children.len(),
    ensures
        ({
            let found = t.resize_targets(k, edge, layout);
            &&& 0 <= n < found.len()
            &&& found[n].parent == p
            &&& found[n].child == c
            &&& found[n].neighbor == t.nodes[p].children[i + side(edge)]
            &&& found[n].neighbor_after == (side(edge) > 0)
            &&& t.box_of(c) is Some
            &&& found[n].original_span == match edge {
                Edge::Left | Edge::Right => t.box_of(c)->0.size.w,
                Edge::Top | Edge::Bottom => t.box_of(c)->0.size.h,
            }
        }),
    decreases depth(t.parents, k),
{
    let kids = t.nodes[p].children;
    assert(t.is_parent(p));
    lemma_slot(t, p, c, i);
    let found = t.resize_targets(k, edge, layout);
    let q = t.parents[k];
    if k == c {
        assert(t.resize_target(p, c, edge) is Some);
        assert(found[0] == t.resize_target(p, c, edge)->0);
        0
    } else {
        lemma_depth(t.parents, k);
        let rest = t.resize_targets(q, edge, layout);
        let n = law_every_boundary_is_found(t, q, edge, layout, c, p, i);
        if found.len() == rest.len() {
            n
        } else {
            assert(found[n + 1] == rest[n]);
            n + 1
        }
    }
}

/// Of two targets the one found first is the inner one.
pub proof fn law_inner_boundaries_come_first(
    t: Tree,
    k: NodeKey,
    edge: Edge,
    layout: Layout,
    i: int,
    j: int,
)
    requires
        t.wf(),
        0 <= i < j < t.resize_targets(k, edge, layout).len(),
    ensures
        ({
            let found = t.resize_targets(k, edge, layout);
            &&& t.under(found[i].child, found[j].child)
            &&& found[i].child != found[j].child
        }),
    decreases depth(t.parents, k),
{
    lemma_depth(t.parents, k);
    let q = t.parents[k];
    let found = t.resize_targets(k, edge, layout);
    let rest = t.resize_targets(q, edge, layout);
    if found.len() == rest.len() {
        law_inner_boundaries_come_first(t, q, edge, layout, i, j);
    } else {
        assert(found[j] == rest[j - 1]);
        if i > 0 {
            assert(found[i] == rest[i - 1]);
            law_inner_boundaries_come_first(t, q, edge, layout, i - 1, j - 1);
        } else {
            law_resize_target_is_a_neighbour(t, q, edge, layout, j - 1);
            assert(found[0].child == k);
            assert(t.under(k, q)) by {
                assert(t.under(q, q));
            }
            lemma_under_trans(t.parents, k, q, found[j].child);
            lemma_under_depth(t.parents, q, found[j].child);
        }
    }
}

/// A drag resizes along an axis exactly when one of its edges lies along it and something around
/// the window has a sibling there; an edge with nothing to resize is let go, and a drag with no
/// edge left does nothing.
pub proof fn law_drag_resizes_what_it_can(t: Tree, k: NodeKey, edge: Edge)
    requires
        t.wf(),
        t.has(k),
    ensures
        ({
            let found = t.drag_targets(k, only(edge), None, None);
            let target = match edge {
                Edge::Left | Edge::Right => (found->0).1,
                Edge::Top | Edge::Bottom => (found->0).2,
            };
            let other = match edge {
                Edge::Left | Edge::Right => (found->0).2,
                Edge::Top | Edge::Bottom => (found->0).1,
            };
            &&& found is Some <==> exists|c: NodeKey| #[trigger]
                t.under(k, c) && t.bordered(c, edge, divided_by(edge))
            &&& found is Some ==> {
                &&& (found->0).0 == only(edge)
                &&& target is Some
                &&& other is None
                &&& t.under(k, target->0.child)
                &&& t.bordered(target->0.child, edge, divided_by(edge))
                &&& forall|c: NodeKey| #[trigger]
                    t.under(k, c) && t.bordered(c, edge, divided_by(edge)) ==> t.under(
                        target->0.child,
                        c,
                    )
            }
        }),
{
    let layout = divided_by(edge);
    let all = t.resize_targets(k, edge, layout);
    let found = t.drag_targets(k, only(edge), None, None);
    assert(only(edge).sideways() == if layout == Layout::SplitH {
        Some(edge)
    } else {
        None
    });
    assert(only(edge).upright() == if layout == Layout::SplitV {
        Some(edge)
    } else {
        None
    });
    if all.len() > 0 {
        law_resize_target_is_a_neighbour(t, k, edge, layout, 0);
        lemma_target_resizable(t, k, edge, layout, 0);
    }
    assert forall|c: NodeKey| #[trigger]
        t.under(k, c) && t.bordered(c, edge, layout) implies all.len() > 0 && t.under(
        all[0].child,
        c,
    ) by {
        let (p, i) = choose|p: NodeKey, i: int| #[trigger]
            t.sits(c, p, i) && t.nodes[p].layout == layout && 0 <= i + side(edge)
                < t.nodes[p].children.len();
        let n = law_every_boundary_is_found(t, k, edge, layout, c, p, i);
        if n > 0 {
            law_inner_boundaries_come_first(t, k, edge, layout, 0, n);
        } else {
            assert(t.under(c, c));
        }
    }
}

proof fn lemma_target_resizable(t: Tree, k: NodeKey, edge: Edge, layout: Layout, n: int)
    requires
        t.wf(),
        0 <= n < t.resize_targets(k, edge, layout).len(),
    ensures
        t.bordered(t.resize_targets(k, edge, layout)[n].child, edge, layout),
{
    let target = t.resize_targets(k, edge, layout)[n];
    law_resize_target_is_a_neighbour(t, k, edge, layout, n);
    let kids = t.kids(target.parent);
    assert(kids.len() > 0);
    let w = choose|i: int| 0 <= i < kids.len() && kids[i] == target.child;
    lemma_slot(t, target.parent, target.child, w);
    let v = choose|i: int| 0 <= i < kids.len() && kids[i] == target.neighbor;
    lemma_slot(t, target.parent, target.neighbor, v);
    assert(t.sits(target.child, target.parent, w));
}

/// The edge a drag moves: for every window on the near side of a boundary it is the edge that was
/// dragged, for every window on the far side the edge across.
pub proof fn law_both_sides_face_the_boundary(
    t: Tree,
    k: NodeKey,
    edge: Edge,
    n: int,
    other: NodeKey,
)
    requires
        t.wf(),
        0 <= n < t.resize_targets(k, edge, divided_by(edge)).len(),
        t.under(other, t.resize_targets(k, edge, divided_by(edge))[n].neighbor),
    ensures
        ({
            let target = t.resize_targets(k, edge, divided_by(edge))[n];
            match edge {
                Edge::Left | Edge::Right => t.dragged_edges(k, Some(target), None) == only(edge)
                    && t.dragged_edges(other, Some(target), None) == only(across(edge)),
                Edge::Top | Edge::Bottom => t.dragged_edges(k, None, Some(target)) == only(edge)
                    && t.dragged_edges(other, None, Some(target)) == only(across(edge)),
            }
        }),
{
    let target = t.resize_targets(k, edge, divided_by(edge))[n];
    law_resize_target_is_a_neighbour(t, k, edge, divided_by(edge), n);
    let kids = t.kids(target.parent);
    let w = choose|i: int| 0 <= i < kids.len() && kids[i] == target.child;
    lemma_slot(t, target.parent, target.child, w);
    let v = choose|i: int| 0 <= i < kids.len() && kids[i] == target.neighbor;
    lemma_slot(t, target.parent, target.neighbor, v);
    lemma_child_toward(t, target.parent, target.child, k);
    lemma_child_toward(t, target.parent, target.neighbor, other);
    assert(target.child != target.neighbor);
}

/// The child of `top` toward a node is the one the node is below.
proof fn lemma_child_toward(t: Tree, top: NodeKey, c: NodeKey, k: NodeKey)
    requires
        t.wf(),
        t.under(k, c),
        t.parents.contains_key(c),
        t.parents[c] == top,
    ensures
        t.child_toward(top, k) == Some(c),
    decreases depth(t.parents, k),
{
    if k != c {
        lemma_depth(t.parents, k);
        lemma_child_toward(t, top, c, t.parents[k]);
        lemma_under_depth(t.parents, t.parents[k], c);
        lemma_depth(t.parents, c);
    }
}

/// Of several boundaries the one that is known to be closest is dragged, else the innermost.
pub proof fn law_the_closest_boundary_is_dragged(found: Seq<ResizeTarget>, i: usize)
    requires
        found.len() > 0,
    ensures
        i < found.len() ==> crate::resize::chosen(found, Some(i)) == Some(found[i as int]),
        crate::resize::chosen(found, None) == Some(found[0]),
        crate::resize::chosen(found, Some(i)) is Some,
{
}

} // verus!
