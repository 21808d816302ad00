//! Interactive resize: which pair of siblings a drag on a window edge resizes.

use crate::arena::ContainerArena;
use crate::axis::{Layout, NodeKey};
use crate::measure::{Real, Rect};
use crate::tile::{SizingMode, WindowId};
use crate::tree::{acyclic, depth, lemma_depth, Tree};
use vstd::prelude::*;

verus! {

/// One edge of a window.
#[derive(Debug, Clone, Copy, PartialEq, Eq, Structural)]
pub enum Edge {
    Left,
    Right,
    Top,
    Bottom,
}

/// The edges of a window that are dragged.
#[derive(Debug, Clone, Copy, PartialEq, Eq, Structural)]
pub struct ResizeEdge {
    pub left: bool,
    pub right: bool,
    pub top: bool,
    pub bottom: bool,
}

/// Two adjacent children of a split: dragging the boundary between them grows one at the
/// other's expense.
#[derive(Debug, Clone, Copy, PartialEq, Eq, Structural)]
pub struct ResizeTarget {
    /// The split holding both children.
    pub parent: NodeKey,
    /// The child being resized.
    pub child: NodeKey,
    /// The sibling absorbing the change.
    pub neighbor: NodeKey,
    /// Whether the neighbor sits after the child.
    pub neighbor_after: bool,
    /// The child's span along the axis when the resize began.
    pub original_span: Real,
}

impl Edge {
    pub open spec fn horizontal(self) -> bool {
        self == Edge::Left || self == Edge::Right
    }

    pub open spec fn leading(self) -> bool {
        self == Edge::Left || self == Edge::Top
    }

    pub fn is_horizontal(self) -> (r: bool)
        ensures
            r == self.horizontal(),
    {
        matches!(self, Edge::Left | Edge::Right)
    }

    pub fn is_vertical(self) -> (r: bool)
        ensures
            r == !self.horizontal(),
    {
        matches!(self, Edge::Top | Edge::Bottom)
    }
}

impl ResizeEdge {
    pub open spec fn spec_none() -> ResizeEdge {
        ResizeEdge { left: false, right: false, top: false, bottom: false }
    }

    pub open spec fn with(self, edge: Edge) -> ResizeEdge {
        match edge {
            Edge::Left => ResizeEdge { left: true, ..self },
            Edge::Right => ResizeEdge { right: true, ..self },
            Edge::Top => ResizeEdge { top: true, ..self },
            Edge::Bottom => ResizeEdge { bottom: true, ..self },
        }
    }

    /// The edge dragged sideways, the left one if both are.
    pub open spec fn sideways(self) -> Option<Edge> {
        if self.left {
            Some(Edge::Left)
        } else if self.right {
            Some(Edge::Right)
        } else {
            None
        }
    }

    /// The edge dragged up or down, the top one if both are.
    pub open spec fn upright(self) -> Option<Edge> {
        if self.top {
            Some(Edge::Top)
        } else if self.bottom {
            Some(Edge::Bottom)
        } else {
            None
        }
    }

    /// No edge.
    pub fn empty() -> (r: ResizeEdge)
        ensures
            r == ResizeEdge::spec_none(),
    {
        ResizeEdge { left: false, right: false, top: false, bottom: false }
    }

    pub fn is_empty(self) -> (r: bool)
        ensures
            r == (self == ResizeEdge::spec_none()),
    {
        !self.left && !self.right && !self.top && !self.bottom
    }

    fn add_edge(self, edge: Edge) -> (r: ResizeEdge)
        ensures
            r == self.with(edge),
    {
        let mut edges = self;
        match edge {
            Edge::Left => edges.left = true,
            Edge::Right => edges.right = true,
            Edge::Top => edges.top = true,
            Edge::Bottom => edges.bottom = true,
        }
        edges
    }
}

/// The first target, or the closest one when it is known.
pub open spec fn chosen(targets: Seq<ResizeTarget>, closest: Option<usize>) -> Option<
    ResizeTarget,
> {
    if targets.len() == 0 {
        None
    } else {
        match closest {
            Some(i) if i < targets.len() => Some(targets[i as int]),
            _ => Some(targets[0]),
        }
    }
}

impl Tree {
    /// The place next to `idx` on the side of `edge`.
    pub open spec fn place_beside(self, p: NodeKey, idx: int, edge: Edge) -> Option<int> {
        if edge.leading() {
            if idx > 0 {
                Some(idx - 1)
            } else {
                None
            }
        } else if idx + 1 < self.kids(p).len() {
            Some(idx + 1)
        } else {
            None
        }
    }

    /// Resizing `c` against its neighbour on the side of `edge`, if it has one and a box.
    pub open spec fn resize_target(self, p: NodeKey, c: NodeKey, edge: Edge) -> Option<
        ResizeTarget,
    > {
        if !self.kids(p).contains(c) {
            None
        } else {
            let idx = self.kids(p).index_of(c);
            match self.place_beside(p, idx, edge) {
                Some(n) => match self.box_of(c) {
                    Some(rect) => Some(
                        ResizeTarget {
                            parent: p,
                            child: c,
                            neighbor: self.kids(p)[n],
                            neighbor_after: n > idx,
                            original_span: if edge.horizontal() {
                                rect.size.w
                            } else {
                                rect.size.h
                            },
                        },
                    ),
                    None => None,
                },
                None => None,
            }
        }
    }

    /// The targets on the way up from a node, the innermost first.
    pub open spec fn resize_targets(self, k: NodeKey, edge: Edge, layout: Layout) -> Seq<
        ResizeTarget,
    >
        decreases depth(self.parents, k),
        when acyclic(self.parents)
    {
        proof {
            if self.parents.contains_key(k) {
                lemma_depth(self.parents, k);
            }
        }
        if !self.parents.contains_key(k) {
            Seq::empty()
        } else {
            let p = self.parents[k];
            let rest = self.resize_targets(p, edge, layout);
            if self.is_parent(p) && self.nodes[p].layout == layout && self.kids(p).len() > 1 {
                match self.resize_target(p, k, edge) {
                    Some(target) => seq![target] + rest,
                    None => rest,
                }
            } else {
                rest
            }
        }
    }

    /// What a drag resizes along one axis, if an edge of that axis is dragged.
    pub open spec fn axis_target(
        self,
        k: NodeKey,
        edge: Option<Edge>,
        layout: Layout,
        closest: Option<usize>,
    ) -> Option<ResizeTarget> {
        match edge {
            Some(edge) => chosen(self.resize_targets(k, edge, layout), closest),
            None => None,
        }
    }

    /// What a drag on the edges of a window resizes, and the edges that resize something.
    pub open spec fn drag_targets(
        self,
        k: NodeKey,
        edges: ResizeEdge,
        closest_h: Option<usize>,
        closest_v: Option<usize>,
    ) -> Option<(ResizeEdge, Option<ResizeTarget>, Option<ResizeTarget>)> {
        let h = self.axis_target(k, edges.sideways(), Layout::SplitH, closest_h);
        let v = self.axis_target(k, edges.upright(), Layout::SplitV, closest_v);
        let left = ResizeEdge {
            left: edges.left && h is Some,
            right: edges.right && h is Some,
            top: edges.top && v is Some,
            bottom: edges.bottom && v is Some,
        };
        if left == ResizeEdge::spec_none() {
            None
        } else {
            Some((left, h, v))
        }
    }

    /// The ancestor of a node, or the node itself, that hangs directly off `top`.
    pub open spec fn child_toward(self, top: NodeKey, k: NodeKey) -> Option<NodeKey>
        decreases depth(self.parents, k),
        when acyclic(self.parents)
    {
        proof {
            if self.parents.contains_key(k) {
                lemma_depth(self.parents, k);
            }
        }
        if !self.parents.contains_key(k) {
            None
        } else if self.parents[k] == top {
            Some(k)
        } else {
            self.child_toward(top, self.parents[k])
        }
    }

    /// The edge of a window that faces the boundary of a target, if it is below either side.
    pub open spec fn facing(self, k: NodeKey, target: ResizeTarget, near: Edge, far: Edge) -> Option<
        Edge,
    > {
        match self.child_toward(target.parent, k) {
            Some(c) => if c == target.child {
                Some(
                    if target.neighbor_after {
                        far
                    } else {
                        near
                    },
                )
            } else if c == target.neighbor {
                Some(
                    if target.neighbor_after {
                        near
                    } else {
                        far
                    },
                )
            } else {
                None
            },
            None => None,
        }
    }

    /// The edges of a window that the targets of a drag move.
    pub open spec fn dragged_edges(
        self,
        k: NodeKey,
        horizontal: Option<ResizeTarget>,
        vertical: Option<ResizeTarget>,
    ) -> ResizeEdge {
        let h = match horizontal {
            Some(target) => match self.facing(k, target, Edge::Left, Edge::Right) {
                Some(edge) => ResizeEdge::spec_none().with(edge),
                None => ResizeEdge::spec_none(),
            },
            None => ResizeEdge::spec_none(),
        };
        match vertical {
            Some(target) => match self.facing(k, target, Edge::Top, Edge::Bottom) {
                Some(edge) => h.with(edge),
                None => h,
            },
            None => h,
        }
    }
}

impl ContainerArena {
    /// The box of the child at `child_idx`.
    pub fn child_rect_in(&self, container_key: NodeKey, child_idx: usize) -> (r: Option<Rect>)
        ensures
            r == if child_idx < self@.kids(container_key).len() {
                self@.box_of(self@.kids(container_key)[child_idx as int])
            } else {
                None
            },
    {
        match self.get_container(container_key) {
            Some(container) => match container.child_key(child_idx) {
                Some(child) => self.node_geometry(child),
                None => None,
            },
            None => None,
        }
    }

    /// The box of a node that is listed by its parent.
    pub fn child_rect_for_key(&self, key: NodeKey) -> (r: Option<Rect>)
        requires
            self.wf(),
        ensures
            r == if self@.slot_of(key) is Some {
                self@.box_of(key)
            } else {
                None
            },
    {
        match self.parent_of(key) {
            Some(parent) => match self.child_index(parent, key) {
                Some(idx) => self.child_rect_in(parent, idx),
                None => None,
            },
            None => None,
        }
    }

    fn resize_target_in(&self, parent: NodeKey, child: NodeKey, edge: Edge) -> (r: Option<
        ResizeTarget,
    >)
        requires
            self.wf(),
        ensures
            r == self@.resize_target(parent, child, edge),
    {
        let count: usize = match self.get_container(parent) {
            Some(container) => container.child_count(),
            None => {
                return None;
            },
        };
        let idx: usize = match self.child_index(parent, child) {
            Some(idx) => idx,
            None => {
                return None;
            },
        };
        proof {
            crate::walk::lemma_slot(self@, parent, child, idx as int);
        }
        let neighbor_idx: usize = match edge {
            Edge::Left | Edge::Top => if idx > 0 {
                idx - 1
            } else {
                return None;
            },
            Edge::Right | Edge::Bottom => if idx + 1 < count {
                idx + 1
            } else {
                return None;
            },
        };
        let neighbor = match self.get_container(parent) {
            Some(container) => match container.child_key(neighbor_idx) {
                Some(neighbor) => neighbor,
                None => {
                    return None;
                },
            },
            None => {
                return None;
            },
        };
        match self.child_rect_for_key(child) {
            Some(rect) => {
                let original_span = if edge.is_horizontal() {
                    rect.size.w
                } else {
                    rect.size.h
                };
                Some(
                    ResizeTarget {
                        parent,
                        child,
                        neighbor,
                        neighbor_after: neighbor_idx > idx,
                        original_span,
                    },
                )
            },
            None => None,
        }
    }

    /// Every split on the way up from a node in which it, or the branch it is in, has a
    /// neighbour on the side of `edge`, the innermost first.
    pub fn resize_candidates(&self, leaf_key: NodeKey, edge: Edge, layout: Layout) -> (r: Vec<
        ResizeTarget,
    >)
        requires
            self.wf(),
        ensures
            r@ == self@.resize_targets(leaf_key, edge, layout),
    {
        let mut out: Vec<ResizeTarget> = Vec::new();
        let mut current = leaf_key;
        assert(out@ + self@.resize_targets(leaf_key, edge, layout) =~= self@.resize_targets(
            leaf_key,
            edge,
            layout,
        ));
        loop
            invariant
                self.wf(),
                out@ + self@.resize_targets(current, edge, layout) == self@.resize_targets(
                    leaf_key,
                    edge,
                    layout,
                ),
            decreases depth(self@.parents, current),
        {
            let parent = match self.parent_of(current) {
                Some(parent) => parent,
                None => {
                    assert(out@ =~= out@ + Seq::<ResizeTarget>::empty());
                    return out;
                },
            };
            proof {
                lemma_depth(self@.parents, current);
            }
            let splits = match self.get_container(parent) {
                Some(container) => container.layout() == layout && container.child_count() > 1,
                None => false,
            };
            if splits {
                if let Some(target) = self.resize_target_in(parent, current, edge) {
                    let ghost before = out@;
                    let ghost rest = self@.resize_targets(parent, edge, layout);
                    out.push(target);
                    assert(out@ + rest =~= before + (seq![target] + rest));
                }
            }
            current = parent;
        }
    }

    /// What a drag on one edge resizes: the candidate closest to the pointer, when it is known
    /// which one that is, else the innermost.
    pub fn resize_target_for_edge(
        &self,
        leaf_key: NodeKey,
        edge: Edge,
        layout: Layout,
        closest: Option<usize>,
    ) -> (r: Option<ResizeTarget>)
        requires
            self.wf(),
        ensures
            r == chosen(self@.resize_targets(leaf_key, edge, layout), closest),
    {
        let targets = self.resize_candidates(leaf_key, edge, layout);
        if targets.len() == 0 {
            return None;
        }
        match closest {
            Some(i) => if i < targets.len() {
                Some(targets[i])
            } else {
                Some(targets[0])
            },
            None => Some(targets[0]),
        }
    }

    /// Whether a drag on an edge would resize anything.
    pub fn has_resize_target(&self, leaf_key: NodeKey, edge: Edge, layout: Layout) -> (r: bool)
        requires
            self.wf(),
        ensures
            r == (self@.resize_targets(leaf_key, edge, layout).len() > 0),
    {
        self.resize_target_for_edge(leaf_key, edge, layout, None).is_some()
    }

    /// What a drag on the edges of a window resizes, with the edges that resize something. A
    /// window that is not sized normally is not resized.
    pub fn resize_targets_for_window(
        &self,
        window_id: WindowId,
        edges: ResizeEdge,
        closest_h: Option<usize>,
        closest_v: Option<usize>,
    ) -> (r: Option<(ResizeEdge, Option<ResizeTarget>, Option<ResizeTarget>)>)
        requires
            self.wf(),
        ensures
            r == match self@.recent(crate::tree::Pick::Window(window_id)) {
                Some(k) => if self@.nodes[k].tile->0.window.sizing_mode is Normal {
                    self@.drag_targets(k, edges, closest_h, closest_v)
                } else {
                    None
                },
                None => None,
            },
    {
        let leaf = match self.window_key(window_id) {
            Some(leaf) => leaf,
            None => {
                return None;
            },
        };
        match self.get_tile(leaf) {
            Some(tile) => {
                if tile.window.sizing_mode != SizingMode::Normal {
                    return None;
                }
            },
            None => {
                proof {
                    crate::tree::lemma_first_of(
                        self@,
                        self@.seat.order,
                        crate::tree::Pick::Window(window_id),
                    );
                }
                return None;
            },
        }
        let mut edges = edges;
        let mut horizontal: Option<ResizeTarget> = None;
        let mut vertical: Option<ResizeTarget> = None;
        if edges.left || edges.right {
            let edge = if edges.left {
                Edge::Left
            } else {
                Edge::Right
            };
            horizontal = self.resize_target_for_edge(leaf, edge, Layout::SplitH, closest_h);
            if horizontal.is_none() {
                edges.left = false;
                edges.right = false;
            }
        }
        if edges.top || edges.bottom {
            let edge = if edges.top {
                Edge::Top
            } else {
                Edge::Bottom
            };
            vertical = self.resize_target_for_edge(leaf, edge, Layout::SplitV, closest_v);
            if vertical.is_none() {
                edges.top = false;
                edges.bottom = false;
            }
        }
        if edges.is_empty() {
            return None;
        }
        Some((edges, horizontal, vertical))
    }

    /// The span of a target's container along `layout` and the children that divide it, or
    /// nothing when the container no longer runs that way.
    pub fn resize_span(&self, target: &ResizeTarget, layout: Layout) -> (r: Option<(Real, usize)>)
        ensures
            r == if self@.is_parent(target.parent) && self@.nodes[target.parent].layout == layout
                && self@.kids(target.parent).len() > 0 && layout.is_split() {
                Some(
                    (
                        if layout == Layout::SplitH {
                            self@.nodes[target.parent].geometry.size.w
                        } else {
                            self@.nodes[target.parent].geometry.size.h
                        },
                        self@.kids(target.parent).len() as usize,
                    ),
                )
            } else {
                None
            },
    {
        match self.get_container(target.parent) {
            Some(container) => {
                let count: usize = container.child_count();
                if container.layout() != layout || count == 0 {
                    return None;
                }
                match layout {
                    Layout::SplitH => Some((container.geometry().size.w, count)),
                    Layout::SplitV => Some((container.geometry().size.h, count)),
                    Layout::Tabbed | Layout::Stacked => None,
                }
            },
            None => None,
        }
    }

    /// The share of a target's child; the whole when it is no longer there.
    pub fn resize_current_percent(&self, target: &ResizeTarget) -> (r: Real)
        requires
            self.wf(),
        ensures
            r == if self@.kids(target.parent).contains(target.child) {
                self@.share_of(target.child, self@.nodes[target.parent].layout)
            } else {
                Real::spec_whole()
            },
    {
        match self.child_index(target.parent, target.child) {
            Some(idx) => match self.child_percent(target.parent, idx) {
                Some(share) => share,
                None => Real::whole(),
            },
            None => Real::whole(),
        }
    }

    /// Gives the two children of a target new shares. False, and nothing changes, when they
    /// are no longer both there or their container no longer runs along `layout`.
    pub fn apply_resize(
        &mut self,
        target: &ResizeTarget,
        layout: Layout,
        share: Real,
        neighbor_share: Real,
    ) -> (r: bool)
        requires
            old(self).wf(),
        ensures
            final(self).wf(),
            r == (old(self)@.kids(target.parent).contains(target.child) && old(self)@.kids(
                target.parent,
            ).contains(target.neighbor) && target.child != target.neighbor && old(
                self,
            )@.nodes[target.parent].layout == layout),
            final(self)@ == if r {
                old(self)@.with_share(target.child, layout, share).with_share(
                    target.neighbor,
                    layout,
                    neighbor_share,
                )
            } else {
                old(self)@
            },
            final(self)@.windows() == old(self)@.windows(),
            forall|k: NodeKey| #[trigger] final(self)@.loose(k) ==> old(self)@.loose(k),
            old(self)@.mentions_live() ==> final(self)@.mentions_live(),
    {
        let idx: usize = match self.child_index(target.parent, target.child) {
            Some(idx) => idx,
            None => {
                return false;
            },
        };
        let neighbor_idx: usize = match self.child_index(target.parent, target.neighbor) {
            Some(idx) => idx,
            None => {
                return false;
            },
        };
        match self.get_container(target.parent) {
            Some(container) => {
                if container.layout() != layout {
                    return false;
                }
            },
            None => {
                return false;
            },
        }
        proof {
            crate::walk::lemma_slot(self@, target.parent, target.child, idx as int);
            crate::walk::lemma_slot(self@, target.parent, target.neighbor, neighbor_idx as int);
        }
        self.set_child_percent_pair(target.parent, idx, neighbor_idx, share, neighbor_share)
    }

    /// The edges of a window that the targets of a drag move.
    pub fn resize_edges_for_leaf(
        &self,
        leaf_key: NodeKey,
        horizontal: Option<ResizeTarget>,
        vertical: Option<ResizeTarget>,
    ) -> (r: ResizeEdge)
        requires
            self.wf(),
        ensures
            r == self@.dragged_edges(leaf_key, horizontal, vertical),
    {
        let mut edges = ResizeEdge::empty();
        if let Some(target) = horizontal {
            if let Some(edge) = self.resize_edge_for_leaf(
                leaf_key,
                &target,
                Edge::Left,
                Edge::Right,
            ) {
                edges = edges.add_edge(edge);
            }
        }
        if let Some(target) = vertical {
            if let Some(edge) = self.resize_edge_for_leaf(
                leaf_key,
                &target,
                Edge::Top,
                Edge::Bottom,
            ) {
                edges = edges.add_edge(edge);
            }
        }
        edges
    }

    fn resize_edge_for_leaf(
        &self,
        leaf_key: NodeKey,
        target: &ResizeTarget,
        near_edge: Edge,
        far_edge: Edge,
    ) -> (r: Option<Edge>)
        requires
            self.wf(),
        ensures
            r == self@.facing(leaf_key, *target, near_edge, far_edge),
    {
        let mut current = leaf_key;
        loop
            invariant
                self.wf(),
                self@.child_toward(target.parent, current) == self@.child_toward(
                    target.parent,
                    leaf_key,
                ),
            ensures
                self@.child_toward(target.parent, leaf_key) == Some(current),
            decreases depth(self@.parents, current),
        {
            match self.parent_of(current) {
                Some(parent) => {
                    proof {
                        lemma_depth(self@.parents, current);
                    }
                    if parent == target.parent {
                        break;
                    }
                    current = parent;
                },
                None => {
                    return None;
                },
            }
        }
        if current == target.child {
            Some(
                if target.neighbor_after {
                    far_edge
                } else {
                    near_edge
                },
            )
        } else if current == target.neighbor {
            Some(
                if target.neighbor_after {
                    near_edge
                } else {
                    far_edge
                },
            )
        } else {
            None
        }
    }
}

/// A drag finds a target only where the two sides are adjacent children of one split, the
/// neighbour on the side of the dragged edge.
pub proof fn law_resize_target_is_a_neighbour(
    t: Tree,
    k: NodeKey,
    edge: Edge,
    layout: Layout,
    i: int,
)
    requires
        t.wf(),
        0 <= i < t.resize_targets(k, edge, layout).len(),
    ensures
        ({
            let target = t.resize_targets(k, edge, layout)[i];
            let kids = t.kids(target.parent);
            &&& t.nodes[target.parent].layout == layout
            &&& kids.contains(target.child)
            &&& kids.contains(target.neighbor)
            &&& t.under(k, target.child)
            &&& target.neighbor_after == !edge.leading()
            &&& kids.index_of(target.neighbor) == kids.index_of(target.child) + if edge.leading() {
                -1int
            } else {
                1int
            }
        }),
    decreases depth(t.parents, k),
{
    lemma_depth(t.parents, k);
    let p = t.parents[k];
    let rest = t.resize_targets(p, edge, layout);
    let all = t.resize_targets(k, edge, layout);
    let here = t.is_parent(p) && t.nodes[p].layout == layout && t.kids(p).len() > 1
        && t.resize_target(p, k, edge) is Some;
    if here && i == 0 {
        let idx = t.kids(p).index_of(k);
        let n = t.place_beside(p, idx, edge)->0;
        assert(t.kids(p)[n] == all[0].neighbor);
        crate::walk::lemma_slot(t, p, all[0].neighbor, n);
    } else {
        let j = if here {
            i - 1
        } else {
            i
        };
        assert(rest[j] == all[i]);
        law_resize_target_is_a_neighbour(t, p, edge, layout, j);
        assert(t.under(p, all[i].child));
    }
}

} // verus!
