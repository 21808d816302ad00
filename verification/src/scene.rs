//! What of the floating side is on screen: where its windows are, how they look, what is drawn
//! and what lies under the pointer.

use crate::arena::ContainerArena;
use crate::axis::NodeKey;
use crate::cache::{leaves_state, LeafInfo, LeafLayoutInfo};
use crate::fitting::{ensure_min_max_size_maybe_zero, within_limits_or_free};
use crate::measure::{IntSize, Point, Real, Rect};
use crate::resize::{Edge, ResizeEdge};
use crate::ring::FocusRingEdges;
use crate::space::{lemma_window_found, FloatingSpace, InteractiveResize};
use crate::tabs::{bars_state, Bar, BarBox, TabBarInfo};
use crate::tile::{Tile, WindowId};
use crate::tree::{Pick, Tree};
use vstd::prelude::*;

verus! {

/// How a window on screen looks.
#[derive(Debug, Clone, Copy, PartialEq, Eq, Structural)]
pub struct TileLook {
    pub key: NodeKey,
    pub window: WindowId,
    pub fullscreen: bool,
    pub focused: bool,
    /// Whether it is where the focus goes when it comes back to the container around it.
    pub focus_head: bool,
    pub edges: FocusRingEdges,
}

/// A window to draw.
#[derive(Debug, Clone, Copy, PartialEq, Eq, Structural)]
pub struct TileDraw {
    pub key: NodeKey,
    /// Whether it is drawn at the origin, filling the output, and not where it stands.
    pub at_origin: bool,
    pub draw_focus: bool,
}

/// What is drawn of the floating side, the topmost first.
#[derive(Debug)]
pub struct RenderPlan {
    /// The windows shown closing.
    pub closing: Vec<WindowId>,
    /// The selected container and its box.
    pub selection: Option<(NodeKey, Rect)>,
    /// The nodes whose tab bars are drawn, with those of everything below them.
    pub bar_scopes: Vec<NodeKey>,
    pub tiles: Vec<TileDraw>,
}

/// What a resize at a point is of.
#[derive(Debug, Clone, Copy, PartialEq, Eq, Structural)]
pub struct FloatingResizeHit {
    pub window: WindowId,
    pub edges: ResizeEdge,
    /// Those of the edges that lie on the border of the group.
    pub external_edges: ResizeEdge,
}

/// What is found where a resize is begun.
#[derive(Debug, Clone, Copy, PartialEq, Eq, Structural)]
pub enum FloatingResizeResult {
    Hit(FloatingResizeHit),
    /// There is a window here, but nothing of it to resize by.
    Blocked,
    Nothing,
}

/// Where a point lies with regard to a window.
#[derive(Debug, Clone, Copy, PartialEq, Eq, Structural)]
pub struct ResizeProbe {
    pub key: NodeKey,
    /// Whether the point is on the window or close to its border.
    pub inside: bool,
    /// Whether the point is on a tab bar above the window.
    pub on_bar: bool,
    /// The edges close by.
    pub edges: ResizeEdge,
    /// The edges of the window that lie on the border of its group.
    pub on_border: ResizeEdge,
}

/// How far a group moves against the way it grows.
#[derive(Debug, Clone, Copy, PartialEq, Eq, Structural)]
pub enum Pull {
    /// It stays.
    Stay,
    /// By all of the growth.
    Whole,
    /// By half of it.
    Half,
}

/// One step of a resize by the pointer.
#[derive(Debug, Clone, Copy, PartialEq, Eq)]
pub struct ResizeStep {
    pub root: NodeKey,
    /// The width to give, and whether to the group and not to the window.
    pub width: Option<(i32, bool)>,
    /// The height to give, likewise.
    pub height: Option<(i32, bool)>,
    pub pull_x: Pull,
    pub pull_y: Pull,
}

/// The entries of the windows of a branch.
pub open spec fn entries_of(leaves: Seq<LeafInfo>, t: Tree, branch: NodeKey) -> Seq<LeafInfo>
    decreases leaves.len(),
{
    if leaves.len() == 0 {
        Seq::empty()
    } else if leaves.last().branch == branch && t.is_view(leaves.last().key) {
        entries_of(leaves.drop_last(), t, branch).push(leaves.last())
    } else {
        entries_of(leaves.drop_last(), t, branch)
    }
}

/// The entries that are visible.
pub open spec fn seen(entries: Seq<LeafInfo>) -> Seq<LeafInfo>
    decreases entries.len(),
{
    if entries.len() == 0 {
        Seq::empty()
    } else if entries.last().visible {
        seen(entries.drop_last()).push(entries.last())
    } else {
        seen(entries.drop_last())
    }
}

pub open spec fn infos_state(infos: Seq<&LeafLayoutInfo>) -> Seq<LeafInfo> {
    Seq::new(infos.len(), |i: int| infos[i]@)
}

/// How far out a box lies, in the direction of an edge.
pub open spec fn reach(rect: Rect, edge: Edge) -> Real {
    if edge.horizontal() {
        rect.loc.x
    } else {
        rect.loc.y
    }
}

/// Whether `rect` lies further out than `best`, which comes earlier. Towards the right and the
/// bottom the later of two equals wins.
pub open spec fn further(rect: Rect, best: Rect, edge: Edge) -> bool {
    if edge.leading() {
        reach(rect, edge).total_rank() < reach(best, edge).total_rank()
    } else {
        reach(rect, edge).total_rank() >= reach(best, edge).total_rank()
    }
}

/// The entry furthest out.
pub open spec fn outermost(entries: Seq<LeafInfo>, edge: Edge) -> Option<LeafInfo>
    decreases entries.len(),
{
    if entries.len() == 0 {
        None
    } else {
        match outermost(entries.drop_last(), edge) {
            Some(best) => if further(entries.last().rect, best.rect, edge) {
                Some(entries.last())
            } else {
                Some(best)
            },
            None => Some(entries.last()),
        }
    }
}

impl Tree {
    /// The group nearest to the active one, by how far the group at each place on the stack lies.
    pub open spec fn nearest_group(self, distances: Seq<Real>) -> Option<NodeKey> {
        match self.active_group() {
            Some(active) => match nearest_from(active, distances, self.floating.len() as int, 0) {
                Some(i) => Some(self.floating[i].key),
                None => None,
            },
            None => None,
        }
    }
}

/// The group nearest to the active one, from place `i` down the stack: of those as near the
/// lowest.
pub open spec fn nearest_from(active: int, distances: Seq<Real>, count: int, i: int) -> Option<int>
    decreases count - i,
{
    if i >= count {
        None
    } else {
        let best = nearest_from(active, distances, count, i + 1);
        if i == active || i >= distances.len() || distances[i].is_nan() || distances[i].rank() < 0 {
            best
        } else {
            match best {
                Some(b) => if distances[i].total_rank() < distances[b].total_rank() {
                    Some(i)
                } else {
                    best
                },
                None => Some(i),
            }
        }
    }
}

/// Whether a bar belongs to a container on the way to a window.
pub open spec fn bar_above(bars: Seq<Bar>, path: Seq<usize>) -> bool {
    exists|i: int| 0 <= i < bars.len() && (#[trigger] bars[i]).path.is_prefix_of(path)
}

/// The probe of a window.
pub open spec fn probe_of(probes: Seq<ResizeProbe>, k: NodeKey) -> Option<ResizeProbe>
    decreases probes.len(),
{
    if probes.len() == 0 {
        None
    } else if probes[0].key == k {
        Some(probes[0])
    } else {
        probe_of(probes.drop_first(), k)
    }
}

/// The window a hit on the bars of a node is on.
pub open spec fn bar_hit_in(hits: Seq<(NodeKey, WindowId)>, scope: NodeKey) -> Option<WindowId>
    decreases hits.len(),
{
    if hits.len() == 0 {
        None
    } else if hits[0].0 == scope {
        Some(hits[0].1)
    } else {
        bar_hit_in(hits.drop_first(), scope)
    }
}

/// The first of some nodes whose bars are hit.
pub open spec fn first_bar_hit(scopes: Seq<NodeKey>, hits: Seq<(NodeKey, WindowId)>) -> Option<
    WindowId,
>
    decreases scopes.len(),
{
    if scopes.len() == 0 {
        None
    } else if bar_hit_in(hits, scopes[0]) is Some {
        bar_hit_in(hits, scopes[0])
    } else {
        first_bar_hit(scopes.drop_first(), hits)
    }
}

impl ResizeEdge {
    /// The edges that are in both.
    pub open spec fn common(self, other: ResizeEdge) -> ResizeEdge {
        ResizeEdge {
            left: self.left && other.left,
            right: self.right && other.right,
            top: self.top && other.top,
            bottom: self.bottom && other.bottom,
        }
    }

    /// The edges that are in both.
    pub fn intersection(self, other: ResizeEdge) -> (r: ResizeEdge)
        ensures
            r == self.common(other),
    {
        ResizeEdge {
            left: self.left && other.left,
            right: self.right && other.right,
            top: self.top && other.top,
            bottom: self.bottom && other.bottom,
        }
    }
}

impl InteractiveResize {
    /// The step the pointer makes. `wanted` is the size it asks for, from the size of the group
    /// along the axes on which the group is resized and from that of the window along the
    /// others. What the window is held to does not hold the group.
    pub open spec fn step(
        self,
        root: NodeKey,
        min_size: IntSize,
        max_size: IntSize,
        wanted: IntSize,
    ) -> ResizeStep {
        let group_h = self.resize_container_edges.left || self.resize_container_edges.right;
        let group_v = self.resize_container_edges.top || self.resize_container_edges.bottom;
        ResizeStep {
            root,
            width: if self.edges.left || self.edges.right {
                Some(
                    (
                        if group_h {
                            within_limits_or_free(wanted.w, 0, 0)
                        } else {
                            within_limits_or_free(wanted.w, min_size.w, max_size.w)
                        },
                        group_h,
                    ),
                )
            } else {
                None
            },
            height: if self.edges.top || self.edges.bottom {
                Some(
                    (
                        if group_v {
                            within_limits_or_free(wanted.h, 0, 0)
                        } else {
                            within_limits_or_free(wanted.h, min_size.h, max_size.h)
                        },
                        group_v,
                    ),
                )
            } else {
                None
            },
            pull_x: pull(group_h, self.edges.left, self.edges.right),
            pull_y: pull(group_v, self.edges.top, self.edges.bottom),
        }
    }
}

/// How far a group moves: dragged by its leading edge it moves back by what it grows, dragged by
/// its trailing edge it stays, and dragged by neither it keeps its middle.
pub open spec fn pull(group: bool, leading: bool, trailing: bool) -> Pull {
    if !group {
        Pull::Stay
    } else if leading {
        Pull::Whole
    } else if trailing {
        Pull::Stay
    } else {
        Pull::Half
    }
}

fn pull_of(group: bool, leading: bool, trailing: bool) -> (r: Pull)
    ensures
        r == pull(group, leading, trailing),
{
    if !group {
        Pull::Stay
    } else if leading {
        Pull::Whole
    } else if trailing {
        Pull::Stay
    } else {
        Pull::Half
    }
}

impl Tree {
    /// The entries of the windows of the groups, from place `i` on the stack down.
    pub open spec fn shown_from(self, i: int) -> Seq<LeafInfo>
        decreases self.floating.len() - i,
    {
        if 0 <= i < self.floating.len() {
            entries_of(self.caches.leaves, self, self.floating[i].key) + self.shown_from(i + 1)
        } else {
            Seq::empty()
        }
    }

    /// Whether a container is selected in the active group.
    pub open spec fn group_selected(self) -> bool {
        match self.active_root() {
            Some(root) => self.split_selected_in(root),
            None => false,
        }
    }

    /// How a window on screen looks. A group that is one window has no order of focus in it;
    /// under a tab bar the tab is the top decoration.
    pub open spec fn look(self, entry: LeafInfo, side_active: bool) -> TileLook {
        let id = self.nodes[entry.key].tile->0.window.id;
        let fullscreen = self.floating_fullscreen_id() == Some(id);
        TileLook {
            key: entry.key,
            window: id,
            fullscreen,
            focused: side_active && (fullscreen || (self.active_id() == Some(id)
                && !self.group_selected())),
            focus_head: self.leaves(entry.branch).len() > 1 && (self.parent(
                entry.key,
            ) matches Some(parent) && self.active(parent) == Some(entry.key)),
            edges: FocusRingEdges {
                top: !self.in_switcher(entry.key),
                ..FocusRingEdges::spec_all()
            },
        }
    }

    /// Whether a window is drawn in a layer: the windows on their way to another workspace have
    /// one of their own.
    pub open spec fn in_layer(self, k: NodeKey, normal: bool) -> bool {
        normal != self.nodes[k].tile->0.is_moving_between_workspaces
    }

    /// How the windows of a layer look.
    pub open spec fn looks(self, entries: Seq<LeafInfo>, side_active: bool, normal: bool) -> Seq<
        TileLook,
    >
        decreases entries.len(),
    {
        if entries.len() == 0 {
            Seq::empty()
        } else if self.in_layer(entries.last().key, normal) {
            self.looks(entries.drop_last(), side_active, normal).push(
                self.look(entries.last(), side_active),
            )
        } else {
            self.looks(entries.drop_last(), side_active, normal)
        }
    }

    /// Whether a window is within what is fullscreen.
    pub open spec fn in_scope(self, k: NodeKey) -> bool {
        match self.floating_fullscreen() {
            Some(scope) => self.under(k, scope),
            None => true,
        }
    }

    /// The windows of a layer to draw where they stand.
    pub open spec fn draws(
        self,
        entries: Seq<LeafInfo>,
        focus_ring: bool,
        side_active: bool,
        normal: bool,
    ) -> Seq<TileDraw>
        decreases entries.len(),
    {
        if entries.len() == 0 {
            Seq::empty()
        } else {
            let rest = self.draws(entries.drop_last(), focus_ring, side_active, normal);
            let k = entries.last().key;
            if self.in_layer(k, normal) && self.in_scope(k) {
                rest.push(
                    TileDraw {
                        key: k,
                        at_origin: false,
                        draw_focus: focus_ring && side_active && self.active_id() == Some(
                            self.nodes[k].tile->0.window.id,
                        ) && !self.group_selected(),
                    },
                )
            } else {
                rest
            }
        }
    }

    /// The windows to draw: one that is fullscreen alone, at the origin.
    pub open spec fn drawn(self, focus_ring: bool, side_active: bool, normal: bool) -> Seq<TileDraw> {
        match self.floating_fullscreen_id() {
            Some(_) => seq![
                TileDraw {
                    key: self.fullscreen->0,
                    at_origin: true,
                    draw_focus: focus_ring && side_active,
                },
            ],
            None => self.draws(seen(self.shown_from(0)), focus_ring, side_active, normal),
        }
    }

    /// The nodes whose tab bars show.
    pub open spec fn bar_scopes(self) -> Seq<NodeKey> {
        match self.floating_fullscreen() {
            Some(scope) => seq![scope],
            None => Seq::new(self.floating.len(), |i: int| self.floating[i].key),
        }
    }

    /// The selected container to draw, with its box.
    pub open spec fn drawn_selection(self, focus_ring: bool, side_active: bool) -> Option<
        (NodeKey, Rect),
    > {
        if (focus_ring || side_active) && self.group_selected()
            && self.floating_fullscreen_id() is None {
            match self.position_in(self.active_root()->0) {
                Some(k) if self.is_parent(k) => Some((k, self.nodes[k].geometry)),
                _ => None,
            }
        } else {
            None
        }
    }

    /// The first window within what is fullscreen that is hit.
    pub open spec fn first_hit(self, entries: Seq<LeafInfo>, hits: Seq<NodeKey>) -> Option<WindowId>
        decreases entries.len(),
    {
        if entries.len() == 0 {
            None
        } else if self.in_scope(entries[0].key) && hits.contains(entries[0].key) {
            Some(self.nodes[entries[0].key].tile->0.window.id)
        } else {
            self.first_hit(entries.drop_first(), hits)
        }
    }

    /// What lies under the pointer: a window that is fullscreen, else a tab, else a window.
    pub open spec fn under_pointer(
        self,
        bar_hits: Seq<(NodeKey, WindowId)>,
        hits: Seq<NodeKey>,
    ) -> Option<WindowId> {
        match self.floating_fullscreen_id() {
            Some(id) => if hits.contains(self.fullscreen->0) {
                Some(id)
            } else {
                None
            },
            None => match first_bar_hit(self.bar_scopes(), bar_hits) {
                Some(id) => Some(id),
                None => self.first_hit(seen(self.shown_from(0)), hits),
            },
        }
    }

    /// What is found of a window where a resize is begun. Under a tab bar the top edge is the
    /// bar's.
    pub open spec fn resize_hit(
        self,
        entry: LeafInfo,
        probe: ResizeProbe,
        boxes: Seq<BarBox>,
    ) -> FloatingResizeResult {
        let bars = self.bars(entry.branch, Seq::empty(), true, boxes);
        let edges = if bar_above(bars, entry.path) {
            ResizeEdge { top: false, ..probe.edges }
        } else {
            probe.edges
        };
        if probe.on_bar || edges == ResizeEdge::spec_none() {
            FloatingResizeResult::Blocked
        } else {
            FloatingResizeResult::Hit(
                FloatingResizeHit {
                    window: self.nodes[entry.key].tile->0.window.id,
                    edges,
                    external_edges: probe.on_border.common(edges),
                },
            )
        }
    }

    /// What is found where a resize is begun: the first window there decides.
    pub open spec fn first_resize_hit(
        self,
        entries: Seq<LeafInfo>,
        probes: Seq<ResizeProbe>,
        boxes: Seq<BarBox>,
    ) -> FloatingResizeResult
        decreases entries.len(),
    {
        if entries.len() == 0 {
            FloatingResizeResult::Nothing
        } else if probe_of(probes, entries[0].key) matches Some(probe) && probe.inside {
            self.resize_hit(entries[0], probe_of(probes, entries[0].key)->0, boxes)
        } else {
            self.first_resize_hit(entries.drop_first(), probes, boxes)
        }
    }
}

/// Everything shown is a window.
proof fn lemma_entries_are_views(leaves: Seq<LeafInfo>, t: Tree, branch: NodeKey)
    ensures
        forall|i: int|
            0 <= i < entries_of(leaves, t, branch).len() ==> t.is_view(
                (#[trigger] entries_of(leaves, t, branch)[i]).key,
            ),
    decreases leaves.len(),
{
    if leaves.len() > 0 {
        lemma_entries_are_views(leaves.drop_last(), t, branch);
        let rest = entries_of(leaves.drop_last(), t, branch);
        assert forall|i: int| 0 <= i < entries_of(leaves, t, branch).len() implies t.is_view(
            (#[trigger] entries_of(leaves, t, branch)[i]).key,
        ) by {
            if i < rest.len() {
                assert(entries_of(leaves, t, branch)[i] == rest[i]);
            }
        }
    }
}

proof fn lemma_shown_are_views(t: Tree, i: int)
    requires
        0 <= i,
    ensures
        forall|j: int|
            0 <= j < t.shown_from(i).len() ==> t.is_view((#[trigger] t.shown_from(i)[j]).key),
    decreases t.floating.len() - i,
{
    if i < t.floating.len() {
        lemma_entries_are_views(t.caches.leaves, t, t.floating[i].key);
        lemma_shown_are_views(t, i + 1);
        let here = entries_of(t.caches.leaves, t, t.floating[i].key);
        let rest = t.shown_from(i + 1);
        assert forall|j: int| 0 <= j < t.shown_from(i).len() implies t.is_view(
            (#[trigger] t.shown_from(i)[j]).key,
        ) by {
            if j < here.len() {
                assert(t.shown_from(i)[j] == here[j]);
            } else {
                assert(t.shown_from(i)[j] == rest[j - here.len()]);
            }
        }
    }
}

proof fn lemma_seen_are_views(entries: Seq<LeafInfo>, t: Tree)
    requires
        forall|j: int| 0 <= j < entries.len() ==> t.is_view((#[trigger] entries[j]).key),
    ensures
        forall|j: int| 0 <= j < seen(entries).len() ==> t.is_view((#[trigger] seen(entries)[j]).key),
    decreases entries.len(),
{
    if entries.len() > 0 {
        let rest = entries.drop_last();
        assert forall|j: int| 0 <= j < rest.len() implies t.is_view((#[trigger] rest[j]).key) by {
            assert(entries[j] == rest[j]);
        }
        lemma_seen_are_views(rest, t);
        assert(t.is_view(entries[entries.len() - 1].key));
        assert forall|j: int| 0 <= j < seen(entries).len() implies t.is_view(
            (#[trigger] seen(entries)[j]).key,
        ) by {
            if j < seen(rest).len() {
                assert(seen(entries)[j] == seen(rest)[j]);
            }
        }
    }
}

fn find_probe(probes: &Vec<ResizeProbe>, key: NodeKey) -> (r: Option<ResizeProbe>)
    ensures
        r == probe_of(probes@, key),
{
    let mut i: usize = 0;
    assert(probes@.skip(0) =~= probes@);
    while i < probes.len()
        invariant
            i <= probes@.len(),
            probe_of(probes@, key) == probe_of(probes@.skip(i as int), key),
        decreases probes@.len() - i,
    {
        assert(probes@.skip(i as int).drop_first() =~= probes@.skip(i as int + 1));
        if probes[i].key == key {
            return Some(probes[i]);
        }
        i = i + 1;
    }
    None
}

fn find_bar_hit(hits: &Vec<(NodeKey, WindowId)>, scope: NodeKey) -> (r: Option<WindowId>)
    ensures
        r == bar_hit_in(hits@, scope),
{
    let mut i: usize = 0;
    assert(hits@.skip(0) =~= hits@);
    while i < hits.len()
        invariant
            i <= hits@.len(),
            bar_hit_in(hits@, scope) == bar_hit_in(hits@.skip(i as int), scope),
        decreases hits@.len() - i,
    {
        assert(hits@.skip(i as int).drop_first() =~= hits@.skip(i as int + 1));
        if hits[i].0 == scope {
            return Some(hits[i].1);
        }
        i = i + 1;
    }
    None
}

fn lists_key(keys: &Vec<NodeKey>, key: NodeKey) -> (r: bool)
    ensures
        r == keys@.contains(key),
{
    let mut i: usize = 0;
    while i < keys.len()
        invariant
            i <= keys@.len(),
            forall|j: int| 0 <= j < i ==> #[trigger] keys@[j] != key,
        decreases keys@.len() - i,
    {
        if keys[i] == key {
            return true;
        }
        i = i + 1;
    }
    false
}

/// Whether one path leads to where another passes through.
fn leads_through(prefix: &Vec<usize>, path: &Vec<usize>) -> (r: bool)
    ensures
        r == prefix@.is_prefix_of(path@),
{
    if prefix.len() > path.len() {
        return false;
    }
    let mut i: usize = 0;
    while i < prefix.len()
        invariant
            i <= prefix@.len() <= path@.len(),
            forall|j: int| 0 <= j < i ==> prefix@[j] == #[trigger] path@[j],
        decreases prefix@.len() - i,
    {
        if prefix[i] != path[i] {
            assert(prefix@[i as int] != path@.subrange(0, prefix@.len() as int)[i as int]);
            return false;
        }
        i = i + 1;
    }
    assert(prefix@ =~= path@.subrange(0, prefix@.len() as int));
    true
}

/// Whether a tab bar belongs to a container on the way to a window.
pub fn leaf_has_tab_bar_ancestor(bars: &Vec<TabBarInfo>, leaf_path: &Vec<usize>) -> (r: bool)
    ensures
        r == bar_above(bars_state(bars@), leaf_path@),
{
    let ghost all = bars_state(bars@);
    let mut i: usize = 0;
    while i < bars.len()
        invariant
            i <= bars@.len(),
            all == bars_state(bars@),
            forall|j: int| 0 <= j < i ==> !(#[trigger] all[j]).path.is_prefix_of(leaf_path@),
        decreases bars@.len() - i,
    {
        assert(all[i as int] == bars@[i as int]@);
        if leads_through(&bars[i].path, leaf_path) {
            assert(all[i as int].path.is_prefix_of(leaf_path@));
            return true;
        }
        i = i + 1;
    }
    false
}

impl FloatingSpace {
    // -----------------------------------------------------------------------------------------
    // Where windows are
    // -----------------------------------------------------------------------------------------

    fn shown<'a>(&self, containers: &'a ContainerArena) -> (r: Vec<&'a LeafLayoutInfo>)
        ensures
            infos_state(r@) == containers@.shown_from(0),
    {
        let ghost t = containers@;
        let floating = containers.floating();
        let leaves = containers.leaf_layouts();
        let mut out: Vec<&'a LeafLayoutInfo> = Vec::new();
        let mut i: usize = 0;
        assert(infos_state(out@) + t.shown_from(0) =~= t.shown_from(0));
        while i < floating.len()
            invariant
                i <= floating@.len(),
                t == containers@,
                floating@ == t.floating,
                leaves_state(leaves@) == t.caches.leaves,
                infos_state(out@) + t.shown_from(i as int) == t.shown_from(0),
            decreases floating@.len() - i,
        {
            let root = floating[i].key;
            let ghost before = infos_state(out@);
            let mut j: usize = 0;
            assert(leaves_state(leaves@).take(0) =~= Seq::empty());
            assert(before + entries_of(Seq::empty(), t, root) =~= before);
            while j < leaves.len()
                invariant
                    j <= leaves@.len(),
                    t == containers@,
                    leaves_state(leaves@) == t.caches.leaves,
                    infos_state(out@) == before + entries_of(
                        t.caches.leaves.take(j as int),
                        t,
                        root,
                    ),
                decreases leaves@.len() - j,
            {
                let ghost prev = out@;
                let ghost head = t.caches.leaves.take(j as int);
                proof {
                    assert(t.caches.leaves.take(j as int + 1).drop_last() =~= head);
                    assert(t.caches.leaves[j as int] == leaves@[j as int]@);
                }
                if leaves[j].branch == root && containers.is_leaf(leaves[j].key) {
                    out.push(&leaves[j]);
                    proof {
                        assert(infos_state(out@) =~= infos_state(prev).push(leaves@[j as int]@));
                        assert(infos_state(out@) =~= before + entries_of(head, t, root).push(
                            leaves@[j as int]@,
                        ));
                    }
                }
                j = j + 1;
            }
            proof {
                assert(t.caches.leaves.take(j as int) =~= t.caches.leaves);
                let here = entries_of(t.caches.leaves, t, root);
                assert((before + here) + t.shown_from(i as int + 1) =~= before + (here
                    + t.shown_from(i as int + 1)));
            }
            i = i + 1;
        }
        assert(infos_state(out@) + Seq::<LeafInfo>::empty() =~= infos_state(out@));
        out
    }

    fn visible<'a>(&self, containers: &'a ContainerArena) -> (r: Vec<&'a LeafLayoutInfo>)
        ensures
            infos_state(r@) == seen(containers@.shown_from(0)),
            forall|i: int|
                0 <= i < r@.len() ==> containers@.is_view(
                    (#[trigger] seen(containers@.shown_from(0))[i]).key,
                ),
    {
        let shown = self.shown(containers);
        let ghost all = infos_state(shown@);
        let mut out: Vec<&'a LeafLayoutInfo> = Vec::new();
        let mut i: usize = 0;
        assert(all.take(0) =~= Seq::empty());
        assert(infos_state(out@) =~= Seq::empty());
        while i < shown.len()
            invariant
                i <= shown@.len(),
                all == infos_state(shown@),
                infos_state(out@) == seen(all.take(i as int)),
            decreases shown@.len() - i,
        {
            let ghost prev = out@;
            assert(all.take(i as int + 1).drop_last() =~= all.take(i as int));
            assert(all[i as int] == shown@[i as int]@);
            if shown[i].visible {
                out.push(shown[i]);
                assert(infos_state(out@) =~= infos_state(prev).push(shown@[i as int]@));
            }
            i = i + 1;
        }
        assert(all.take(i as int) =~= all);
        proof {
            lemma_shown_are_views(containers@, 0);
            lemma_seen_are_views(containers@.shown_from(0), containers@);
        }
        out
    }

    /// The windows on screen, group by group from the top of the stack down, each with the
    /// place its tile has.
    pub fn tiles_with_offsets<'a>(&self, containers: &'a ContainerArena) -> (r: Vec<
        (&'a Tile, Point),
    >)
        ensures
            r@.len() == containers@.shown_from(0).len(),
            forall|i: int|
                0 <= i < r@.len() ==> (#[trigger] r@[i]).0@ == containers@.nodes[
                    containers@.shown_from(0)[i].key
                ].tile->0 && r@[i].1 == containers@.shown_from(0)[i].rect.loc,
    {
        let shown = self.shown(containers);
        proof {
            lemma_shown_are_views(containers@, 0);
        }
        place(containers, &shown)
    }

    /// The windows of [`Self::tiles_with_offsets`] that are visible.
    pub fn tiles_with_offsets_visible<'a>(&self, containers: &'a ContainerArena) -> (r: Vec<
        (&'a Tile, Point),
    >)
        ensures
            r@.len() == seen(containers@.shown_from(0)).len(),
            forall|i: int|
                0 <= i < r@.len() ==> (#[trigger] r@[i]).0@ == containers@.nodes[
                    seen(containers@.shown_from(0))[i].key
                ].tile->0 && r@[i].1 == seen(containers@.shown_from(0))[i].rect.loc,
    {
        let visible = self.visible(containers);
        assert(infos_state(visible@).len() == visible@.len());
        place(containers, &visible)
    }

    fn focus_outermost(&mut self, containers: &mut ContainerArena, edge: Edge)
        requires
            old(containers).wf(),
        ensures
            final(containers).wf(),
            final(self)@ == old(self)@,
            final(containers)@ == old(containers)@.outermost_activated(edge),
            final(containers)@.windows() == old(containers)@.windows(),
            forall|k: NodeKey| #[trigger]
                final(containers)@.loose(k) ==> old(containers)@.loose(k),
            old(containers)@.mentions_live() ==> final(containers)@.mentions_live(),
    {
        let ghost t = containers@;
        let mut best: Option<(NodeKey, Rect)> = None;
        let visible = self.visible(containers);
        let ghost all = infos_state(visible@);
        let mut i: usize = 0;
        assert(all.take(0) =~= Seq::empty());
        while i < visible.len()
            invariant
                i <= visible@.len(),
                all == infos_state(visible@),
                match outermost(all.take(i as int), edge) {
                    Some(entry) => best == Some((entry.key, entry.rect)) && t.is_view(entry.key),
                    None => best is None,
                },
                forall|j: int| 0 <= j < all.len() ==> t.is_view((#[trigger] all[j]).key),
            decreases visible@.len() - i,
        {
            assert(all.take(i as int + 1).drop_last() =~= all.take(i as int));
            assert(all[i as int] == visible@[i as int]@);
            let better = match best {
                Some((_, rect)) => lies_further(visible[i].rect, rect, edge),
                None => true,
            };
            if better {
                best = Some((visible[i].key, visible[i].rect));
            }
            i = i + 1;
        }
        assert(all.take(i as int) =~= all);
        if let Some((key, _)) = best {
            let id = containers.get_tile(key).unwrap().window.id;
            self.activate_window(containers, id);
        }
    }

    /// Activates the window furthest to the left.
    pub fn focus_leftmost(&mut self, containers: &mut ContainerArena)
        requires
            old(containers).wf(),
        ensures
            final(containers).wf(),
            final(self)@ == old(self)@,
            final(containers)@ == old(containers)@.outermost_activated(Edge::Left),
            final(containers)@.windows() == old(containers)@.windows(),
            forall|k: NodeKey| #[trigger]
                final(containers)@.loose(k) ==> old(containers)@.loose(k),
            old(containers)@.mentions_live() ==> final(containers)@.mentions_live(),
    {
        self.focus_outermost(containers, Edge::Left);
    }

    /// Activates the window whose left edge is furthest to the right.
    pub fn focus_rightmost(&mut self, containers: &mut ContainerArena)
        requires
            old(containers).wf(),
        ensures
            final(containers).wf(),
            final(self)@ == old(self)@,
            final(containers)@ == old(containers)@.outermost_activated(Edge::Right),
            final(containers)@.windows() == old(containers)@.windows(),
            forall|k: NodeKey| #[trigger]
                final(containers)@.loose(k) ==> old(containers)@.loose(k),
            old(containers)@.mentions_live() ==> final(containers)@.mentions_live(),
    {
        self.focus_outermost(containers, Edge::Right);
    }

    /// Activates the window furthest up.
    pub fn focus_topmost(&mut self, containers: &mut ContainerArena)
        requires
            old(containers).wf(),
        ensures
            final(containers).wf(),
            final(self)@ == old(self)@,
            final(containers)@ == old(containers)@.outermost_activated(Edge::Top),
            final(containers)@.windows() == old(containers)@.windows(),
            forall|k: NodeKey| #[trigger]
                final(containers)@.loose(k) ==> old(containers)@.loose(k),
            old(containers)@.mentions_live() ==> final(containers)@.mentions_live(),
    {
        self.focus_outermost(containers, Edge::Top);
    }

    /// Activates the window whose top edge is furthest down.
    pub fn focus_bottommost(&mut self, containers: &mut ContainerArena)
        requires
            old(containers).wf(),
        ensures
            final(containers).wf(),
            final(self)@ == old(self)@,
            final(containers)@ == old(containers)@.outermost_activated(Edge::Bottom),
            final(containers)@.windows() == old(containers)@.windows(),
            forall|k: NodeKey| #[trigger]
                final(containers)@.loose(k) ==> old(containers)@.loose(k),
            old(containers)@.mentions_live() ==> final(containers)@.mentions_live(),
    {
        self.focus_outermost(containers, Edge::Bottom);
    }

    /// The group nearest to the active one in a direction: `distances` has, for each place on
    /// the stack, how far the group there lies in that direction. A distance of nought counts;
    /// of groups as near the lowest on the stack is taken.
    pub fn directional_root(&self, containers: &ContainerArena, distances: &Vec<Real>) -> (r:
        Option<NodeKey>)
        requires
            containers.wf(),
        ensures
            r == containers@.nearest_group(distances@),
    {
        let active = match self.active_container_idx(containers) {
            Some(active) => active,
            None => {
                return None;
            },
        };
        let count: usize = containers.floating_root_count();
        let mut best: Option<usize> = None;
        let mut i: usize = count;
        while i > 0
            invariant
                i <= count,
                match nearest_from(active as int, distances@, count as int, i as int) {
                    Some(b) => best == Some(b as usize) && i <= b < count && b < distances@.len(),
                    None => best is None,
                },
            decreases i,
        {
            i = i - 1;
            if i != active && i < distances.len() && (Real::zero().is_less(distances[i])
                || Real::zero().is_same(distances[i])) {
                let nearer = match best {
                    Some(best) => distances[i].comes_before(distances[best]),
                    None => true,
                };
                if nearer {
                    best = Some(i);
                }
            }
        }
        match best {
            Some(best) => Some(containers.floating()[best].key),
            None => None,
        }
    }

    /// The place of the tile of a window, if it is visible.
    pub fn visible_offset(&self, containers: &ContainerArena, id: WindowId) -> (r: Option<Point>)
        ensures
            r == containers@.first_offset(seen(containers@.shown_from(0)), id),
    {
        let tiles = self.tiles_with_offsets_visible(containers);
        let ghost all = seen(containers@.shown_from(0));
        let mut i: usize = 0;
        assert(all.skip(0) =~= all);
        while i < tiles.len()
            invariant
                i <= tiles@.len(),
                all == seen(containers@.shown_from(0)),
                tiles@.len() == all.len(),
                forall|j: int|
                    0 <= j < tiles@.len() ==> (#[trigger] tiles@[j]).0@ == containers@.nodes[
                        all[j].key
                    ].tile->0 && tiles@[j].1 == all[j].rect.loc,
                containers@.first_offset(all, id) == containers@.first_offset(
                    all.skip(i as int),
                    id,
                ),
            decreases tiles@.len() - i,
        {
            assert(all.skip(i as int).drop_first() =~= all.skip(i as int + 1));
            let (tile, offset) = tiles[i];
            assert(tiles@[i as int].0@ == containers@.nodes[all[i as int].key].tile->0);
            if tile.window.id == id {
                return Some(offset);
            }
            i = i + 1;
        }
        None
    }

    // -----------------------------------------------------------------------------------------
    // What is drawn
    // -----------------------------------------------------------------------------------------

    fn group_selected(&self, containers: &ContainerArena) -> (r: bool)
        requires
            containers.wf(),
        ensures
            r == containers@.group_selected(),
    {
        match self.active_root(containers) {
            Some(root) => self.selected_is_container_in(containers, root),
            None => false,
        }
    }

    /// How the windows of a layer look; `side_active` is whether the floating side has the
    /// focus of the workspace. What the clients have answered by then is to be committed first,
    /// by [`ContainerArena::catch_up`].
    pub fn update_render_elements(
        &self,
        containers: &ContainerArena,
        side_active: bool,
        normal_layer: bool,
    ) -> (r: Vec<TileLook>)
        requires
            containers.wf(),
        ensures
            r@ == containers@.looks(containers@.shown_from(0), side_active, normal_layer),
    {
        let ghost t = containers@;
        let active = self.active_window_id(containers);
        let fullscreen_id = self.fullscreen_window_id(containers);
        let selection_is_container = self.group_selected(containers);
        let shown = self.shown(containers);
        let ghost all = infos_state(shown@);
        let mut out: Vec<TileLook> = Vec::new();
        let mut i: usize = 0;
        proof {
            lemma_shown_are_views(t, 0);
            assert(all.take(0) =~= Seq::empty());
        }
        while i < shown.len()
            invariant
                containers.wf(),
                i <= shown@.len(),
                t == containers@,
                all == infos_state(shown@),
                forall|j: int| 0 <= j < all.len() ==> t.is_view((#[trigger] all[j]).key),
                active == t.active_id(),
                fullscreen_id == t.floating_fullscreen_id(),
                selection_is_container == t.group_selected(),
                out@ == t.looks(all.take(i as int), side_active, normal_layer),
            decreases shown@.len() - i,
        {
            proof {
                assert(all.take(i as int + 1).drop_last() =~= all.take(i as int));
                assert(all[i as int] == shown@[i as int]@);
                assert(t.is_view(all[i as int].key));
            }
            let key = shown[i].key;
            let tile = containers.get_tile(key).unwrap();
            if normal_layer != tile.is_moving_between_workspaces {
                let mut edges = FocusRingEdges::all();
                if containers.parent_is_switcher(key) {
                    edges.top = false;
                }
                let id = tile.window.id;
                let fullscreen = fullscreen_id == Some(id);
                let focus_head = containers.window_count_in_branch(shown[i].branch) > 1
                    && containers.is_focus_head(key);
                out.push(
                    TileLook {
                        key,
                        window: id,
                        fullscreen,
                        focused: side_active && (fullscreen || (active == Some(id)
                            && !selection_is_container)),
                        focus_head,
                        edges,
                    },
                );
            }
            i = i + 1;
        }
        assert(all.take(i as int) =~= all);
        out
    }

    fn draws(
        &self,
        containers: &ContainerArena,
        focus_ring: bool,
        side_active: bool,
        normal_layer: bool,
    ) -> (r: Vec<TileDraw>)
        requires
            containers.wf(),
        ensures
            r@ == containers@.draws(
                seen(containers@.shown_from(0)),
                focus_ring,
                side_active,
                normal_layer,
            ),
    {
        let ghost t = containers@;
        let active = self.active_window_id(containers);
        let scope = self.fullscreen_key(containers);
        let selection_is_container = self.group_selected(containers);
        let visible = self.visible(containers);
        let ghost all = infos_state(visible@);
        let mut out: Vec<TileDraw> = Vec::new();
        let mut i: usize = 0;
        assert(all.take(0) =~= Seq::empty());
        while i < visible.len()
            invariant
                containers.wf(),
                i <= visible@.len(),
                t == containers@,
                all == infos_state(visible@),
                forall|j: int| 0 <= j < all.len() ==> t.is_view((#[trigger] all[j]).key),
                active == t.active_id(),
                scope == t.floating_fullscreen(),
                selection_is_container == t.group_selected(),
                out@ == t.draws(all.take(i as int), focus_ring, side_active, normal_layer),
            decreases visible@.len() - i,
        {
            proof {
                assert(all.take(i as int + 1).drop_last() =~= all.take(i as int));
                assert(all[i as int] == visible@[i as int]@);
                assert(t.is_view(all[i as int].key));
            }
            let key = visible[i].key;
            let tile = containers.get_tile(key).unwrap();
            let in_scope = match scope {
                Some(scope) => containers.is_descendant(key, scope),
                None => true,
            };
            if normal_layer != tile.is_moving_between_workspaces && in_scope {
                let draw_focus = focus_ring && side_active && active == Some(tile.window.id)
                    && !selection_is_container;
                out.push(TileDraw { key, at_origin: false, draw_focus });
            }
            i = i + 1;
        }
        assert(all.take(i as int) =~= all);
        out
    }

    fn bar_scopes(&self, containers: &ContainerArena) -> (r: Vec<NodeKey>)
        requires
            containers.wf(),
        ensures
            r@ == containers@.bar_scopes(),
    {
        match self.fullscreen_key(containers) {
            Some(scope) => {
                let mut scopes: Vec<NodeKey> = Vec::new();
                scopes.push(scope);
                scopes
            },
            None => {
                let roots = containers.floating_roots();
                assert(roots@ =~= containers@.bar_scopes());
                roots
            },
        }
    }

    /// What is drawn of a layer of the floating side. `focus_ring` is whether focus is shown at
    /// all, `side_active` whether the floating side has it, `bars_off` whether there are no tab
    /// bars. Windows that lie outside the view are listed too.
    pub fn render(
        &self,
        containers: &ContainerArena,
        focus_ring: bool,
        side_active: bool,
        normal_layer: bool,
        bars_off: bool,
    ) -> (r: RenderPlan)
        requires
            containers.wf(),
        ensures
            r.closing@ == if normal_layer {
                self@.closing.reverse()
            } else {
                Seq::empty()
            },
            r.selection == containers@.drawn_selection(focus_ring, side_active),
            r.bar_scopes@ == if bars_off || containers@.floating_fullscreen_id() is Some {
                Seq::empty()
            } else {
                containers@.bar_scopes()
            },
            r.tiles@ == containers@.drawn(focus_ring, side_active, normal_layer),
    {
        let mut closing: Vec<WindowId> = Vec::new();
        if normal_layer {
            let all = self.closing();
            let mut i: usize = all.len();
            while i > 0
                invariant
                    i <= all@.len(),
                    closing@ == all@.skip(i as int).reverse(),
                decreases i,
            {
                i = i - 1;
                closing.push(all[i]);
                assert(closing@ =~= all@.skip(i as int).reverse());
            }
            assert(all@.skip(0) =~= all@);
        }
        let fullscreen_id = self.fullscreen_window_id(containers);
        let mut selection: Option<(NodeKey, Rect)> = None;
        if (focus_ring || side_active) && self.group_selected(containers)
            && fullscreen_id.is_none() {
            if let Some(root) = self.active_root(containers) {
                if let Some(key) = containers.branch_position(root) {
                    if let Some((_, rect, _)) = containers.container_info(key) {
                        selection = Some((key, rect));
                    }
                }
            }
        }
        let bar_scopes = if bars_off || fullscreen_id.is_some() {
            Vec::new()
        } else {
            self.bar_scopes(containers)
        };
        let tiles = match fullscreen_id {
            Some(_) => {
                let mut tiles: Vec<TileDraw> = Vec::new();
                if let Some(key) = containers.fullscreen_key() {
                    tiles.push(
                        TileDraw { key, at_origin: true, draw_focus: focus_ring && side_active },
                    );
                }
                tiles
            },
            None => self.draws(containers, focus_ring, side_active, normal_layer),
        };
        RenderPlan { closing, selection, bar_scopes, tiles }
    }

    // -----------------------------------------------------------------------------------------
    // Under the pointer
    // -----------------------------------------------------------------------------------------

    /// The window under the pointer. `bar_hits` has the nodes whose tab bars are hit, each with
    /// the window its tab leads to; `hits` the windows that are hit where they are drawn.
    pub fn window_under(
        &self,
        containers: &ContainerArena,
        bar_hits: &Vec<(NodeKey, WindowId)>,
        hits: &Vec<NodeKey>,
    ) -> (r: Option<WindowId>)
        requires
            containers.wf(),
        ensures
            r == containers@.under_pointer(bar_hits@, hits@),
    {
        let ghost t = containers@;
        if let Some(id) = self.fullscreen_window_id(containers) {
            if let Some(key) = containers.fullscreen_key() {
                if lists_key(hits, key) {
                    return Some(id);
                }
            }
            return None;
        }
        let scopes = self.bar_scopes(containers);
        let mut i: usize = 0;
        assert(scopes@.skip(0) =~= scopes@);
        while i < scopes.len()
            invariant
                i <= scopes@.len(),
                t == containers@,
                t.floating_fullscreen_id() is None,
                scopes@ == t.bar_scopes(),
                first_bar_hit(scopes@, bar_hits@) == first_bar_hit(
                    scopes@.skip(i as int),
                    bar_hits@,
                ),
            decreases scopes@.len() - i,
        {
            assert(scopes@.skip(i as int).drop_first() =~= scopes@.skip(i as int + 1));
            if let Some(id) = find_bar_hit(bar_hits, scopes[i]) {
                return Some(id);
            }
            i = i + 1;
        }
        let scope = self.fullscreen_key(containers);
        let visible = self.visible(containers);
        let ghost all = infos_state(visible@);
        let mut j: usize = 0;
        assert(all.skip(0) =~= all);
        while j < visible.len()
            invariant
                containers.wf(),
                j <= visible@.len(),
                t == containers@,
                t.floating_fullscreen_id() is None,
                first_bar_hit(t.bar_scopes(), bar_hits@) is None,
                scope == t.floating_fullscreen(),
                all == infos_state(visible@),
                all == seen(t.shown_from(0)),
                forall|k: int| 0 <= k < all.len() ==> t.is_view((#[trigger] all[k]).key),
                t.first_hit(all, hits@) == t.first_hit(all.skip(j as int), hits@),
            decreases visible@.len() - j,
        {
            proof {
                assert(all.skip(j as int).drop_first() =~= all.skip(j as int + 1));
                assert(all[j as int] == visible@[j as int]@);
                assert(t.is_view(all[j as int].key));
            }
            let key = visible[j].key;
            let in_scope = match scope {
                Some(scope) => containers.is_descendant(key, scope),
                None => true,
            };
            if in_scope && lists_key(hits, key) {
                return Some(containers.get_tile(key).unwrap().window.id);
            }
            j = j + 1;
        }
        None
    }

    /// What a resize at a point is of. `probes` tells where the point lies with regard to the
    /// windows, `boxes` where the tab bars are. While something is fullscreen there is nothing
    /// to resize.
    pub fn resize_hit_under(
        &self,
        containers: &ContainerArena,
        probes: &Vec<ResizeProbe>,
        boxes: &Vec<BarBox>,
    ) -> (r: FloatingResizeResult)
        requires
            containers.wf(),
        ensures
            r == if containers@.floating_fullscreen() is Some {
                FloatingResizeResult::Nothing
            } else {
                containers@.first_resize_hit(seen(containers@.shown_from(0)), probes@, boxes@)
            },
    {
        let ghost t = containers@;
        if self.has_fullscreen_window(containers) {
            return FloatingResizeResult::Nothing;
        }
        let visible = self.visible(containers);
        let ghost all = infos_state(visible@);
        let mut i: usize = 0;
        assert(all.skip(0) =~= all);
        while i < visible.len()
            invariant
                containers.wf(),
                i <= visible@.len(),
                t == containers@,
                t.floating_fullscreen() is None,
                all == infos_state(visible@),
                all == seen(t.shown_from(0)),
                forall|k: int| 0 <= k < all.len() ==> t.is_view((#[trigger] all[k]).key),
                t.first_resize_hit(all, probes@, boxes@) == t.first_resize_hit(
                    all.skip(i as int),
                    probes@,
                    boxes@,
                ),
            decreases visible@.len() - i,
        {
            proof {
                assert(all.skip(i as int).drop_first() =~= all.skip(i as int + 1));
                assert(all[i as int] == visible@[i as int]@);
                assert(t.is_view(all[i as int].key));
            }
            let key = visible[i].key;
            if let Some(probe) = find_probe(probes, key) {
                if probe.inside {
                    if probe.on_bar {
                        return FloatingResizeResult::Blocked;
                    }
                    let bars = containers.tab_bar_layouts_in_branch(visible[i].branch, boxes);
                    let mut edges = probe.edges;
                    if leaf_has_tab_bar_ancestor(&bars, &visible[i].path) {
                        edges.top = false;
                    }
                    if edges.is_empty() {
                        return FloatingResizeResult::Blocked;
                    }
                    let window = containers.get_tile(key).unwrap().window.id;
                    let external_edges = probe.on_border.intersection(edges);
                    return FloatingResizeResult::Hit(
                        FloatingResizeHit { window, edges, external_edges },
                    );
                }
            }
            i = i + 1;
        }
        FloatingResizeResult::Nothing
    }

    /// The edges a resize at a point is by: none where a window is in the way.
    pub fn resize_edges_under(
        &self,
        containers: &ContainerArena,
        probes: &Vec<ResizeProbe>,
        boxes: &Vec<BarBox>,
    ) -> (r: Option<ResizeEdge>)
        requires
            containers.wf(),
        ensures
            ({
                let found = if containers@.floating_fullscreen() is Some {
                    FloatingResizeResult::Nothing
                } else {
                    containers@.first_resize_hit(seen(containers@.shown_from(0)), probes@, boxes@)
                };
                r == match found {
                    FloatingResizeResult::Hit(hit) => Some(hit.edges),
                    FloatingResizeResult::Blocked => Some(ResizeEdge::spec_none()),
                    FloatingResizeResult::Nothing => None,
                }
            }),
    {
        match self.resize_hit_under(containers, probes, boxes) {
            FloatingResizeResult::Hit(hit) => Some(hit.edges),
            FloatingResizeResult::Blocked => Some(ResizeEdge::empty()),
            FloatingResizeResult::Nothing => None,
        }
    }

    /// The next step of a resize by the pointer, for the size it asks for; none if the window
    /// is not the one being resized, or no longer floats.
    pub fn interactive_resize_update(
        &self,
        containers: &ContainerArena,
        window: WindowId,
        wanted: IntSize,
    ) -> (r: Option<ResizeStep>)
        requires
            containers.wf(),
        ensures
            r == match self@.resize {
                Some(resize) => match containers@.floating_window(window) {
                    Some(k) => if resize.window == window {
                        Some(
                            resize.step(
                                containers@.branch(k),
                                containers@.nodes[k].tile->0.window.min_size,
                                containers@.nodes[k].tile->0.window.max_size,
                                wanted,
                            ),
                        )
                    } else {
                        None
                    },
                    None => None,
                },
                None => None,
            },
    {
        proof {
            lemma_window_found(containers@, window);
        }
        let resize = match self.resize_in_progress() {
            Some(resize) => resize,
            None => {
                return None;
            },
        };
        let key = match containers.window_key(window) {
            Some(key) => key,
            None => {
                return None;
            },
        };
        if resize.window != window || !containers.is_in_floating_branch(key) {
            return None;
        }
        let root = containers.branch_root(key);
        let tile = containers.get_tile(key).unwrap();
        let mut min_size = tile.window.min_size;
        let mut max_size = tile.window.max_size;
        let group_h = resize.resize_container_edges.left || resize.resize_container_edges.right;
        let group_v = resize.resize_container_edges.top || resize.resize_container_edges.bottom;
        if group_h {
            min_size.w = 0;
            max_size.w = 0;
        }
        if group_v {
            min_size.h = 0;
            max_size.h = 0;
        }
        let edges = resize.edges;
        let width = if edges.left || edges.right {
            Some((ensure_min_max_size_maybe_zero(wanted.w, min_size.w, max_size.w), group_h))
        } else {
            None
        };
        let height = if edges.top || edges.bottom {
            Some((ensure_min_max_size_maybe_zero(wanted.h, min_size.h, max_size.h), group_v))
        } else {
            None
        };
        Some(
            ResizeStep {
                root,
                width,
                height,
                pull_x: pull_of(group_h, edges.left, edges.right),
                pull_y: pull_of(group_v, edges.top, edges.bottom),
            },
        )
    }

    /// Whether the container around a window is one that can be split further.
    pub fn container_allows_splits(&self, containers: &ContainerArena, id: WindowId) -> (r: bool)
        requires
            containers.wf(),
        ensures
            r == (containers@.recent(Pick::Window(id)) matches Some(k) && (
            containers@.parent(k) matches Some(p) && containers@.is_split(p) && (
            containers@.nodes[p].children.len() > 1 || containers@.nodes[p].user_created))),
    {
        match containers.window_key(id) {
            Some(key) => containers.container_of_allows_splits(key),
            None => false,
        }
    }
}

impl Tree {
    /// The window furthest out activated.
    pub open spec fn outermost_activated(self, edge: Edge) -> Tree {
        match outermost(seen(self.shown_from(0)), edge) {
            Some(entry) => self.activated(self.nodes[entry.key].tile->0.window.id).0,
            None => self,
        }
    }

    /// The place of the first entry of a window.
    pub open spec fn first_offset(self, entries: Seq<LeafInfo>, id: WindowId) -> Option<Point>
        decreases entries.len(),
    {
        if entries.len() == 0 {
            None
        } else if self.nodes[entries[0].key].tile->0.window.id == id {
            Some(entries[0].rect.loc)
        } else {
            self.first_offset(entries.drop_first(), id)
        }
    }
}

fn lies_further(rect: Rect, best: Rect, edge: Edge) -> (r: bool)
    ensures
        r == further(rect, best, edge),
{
    match edge {
        Edge::Left => rect.loc.x.comes_before(best.loc.x),
        Edge::Right => !rect.loc.x.comes_before(best.loc.x),
        Edge::Top => rect.loc.y.comes_before(best.loc.y),
        Edge::Bottom => !rect.loc.y.comes_before(best.loc.y),
    }
}

fn place<'a>(containers: &'a ContainerArena, infos: &Vec<&'a LeafLayoutInfo>) -> (r: Vec<
    (&'a Tile, Point),
>)
    requires
        forall|i: int|
            0 <= i < infos@.len() ==> containers@.is_view((#[trigger] infos_state(infos@)[i]).key),
    ensures
        r@.len() == infos@.len(),
        forall|i: int|
            0 <= i < r@.len() ==> (#[trigger] r@[i]).0@ == containers@.nodes[
                infos_state(infos@)[i].key
            ].tile->0 && r@[i].1 == infos_state(infos@)[i].rect.loc,
{
    let ghost all = infos_state(infos@);
    let mut out: Vec<(&'a Tile, Point)> = Vec::new();
    let mut i: usize = 0;
    while i < infos.len()
        invariant
            i <= infos@.len(),
            all == infos_state(infos@),
            forall|j: int| 0 <= j < all.len() ==> containers@.is_view((#[trigger] all[j]).key),
            out@.len() == i,
            forall|j: int|
                0 <= j < i ==> (#[trigger] out@[j]).0@ == containers@.nodes[all[j].key].tile->0
                    && out@[j].1 == all[j].rect.loc,
        decreases infos@.len() - i,
    {
        proof {
            assert(all[i as int] == infos@[i as int]@);
            assert(containers@.is_view(all[i as int].key));
        }
        let tile = containers.get_tile(infos[i].key).unwrap();
        out.push((tile, infos[i].rect.loc));
        i = i + 1;
    }
    out
}

} // verus!
