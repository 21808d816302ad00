//! Keeping the floating side up to date: moves, resizes, animations, what is published of it and
//! what holds of it.

use crate::arena::ContainerArena;
use crate::axis::{Direction, Layout, NodeKey};
use crate::cache::ArrangeScope;
use crate::measure::{Real, Rect, Size};
use crate::project::{Description, LayoutTreeNode, Reporting};
use crate::resize::ResizeEdge;
use crate::space::{lemma_window_found, FloatingSpace, Space};
use crate::tile::{SizingMode, Tile, TileState, WindowId};
use crate::tree::{FloatingGeometry, FloatingRootKind, Tree};
use vstd::prelude::*;

verus! {

/// The axis of a resize.
#[derive(Debug, Clone, Copy, PartialEq, Eq, Structural)]
pub enum ResizeAxis {
    Horizontal,
    Vertical,
}

/// A resize that was asked for.
#[derive(Debug, Clone, Copy, PartialEq, Eq, Structural)]
pub enum ResizeRequest {
    /// Along an axis.
    Axis(ResizeAxis),
    /// By moving one edge.
    Edge(Direction),
}

/// What a resize changes.
#[derive(Debug, Clone, Copy, PartialEq, Eq, Structural)]
pub enum ResizeSubject {
    /// The box of a whole group.
    Group(NodeKey),
    /// The share of one child of a split inside a group.
    Child { root: NodeKey, parent: NodeKey, child_idx: usize },
}

/// What a window is told when the floating side is refreshed.
#[derive(Debug, Clone, Copy, PartialEq, Eq, Structural)]
pub struct WindowNotice {
    pub window: WindowId,
    pub activated: bool,
    /// The edges dragged by a resize of its group.
    pub resize: Option<ResizeEdge>,
}

impl ResizeAxis {
    pub open spec fn spec_layout(self) -> Layout {
        match self {
            ResizeAxis::Horizontal => Layout::SplitH,
            ResizeAxis::Vertical => Layout::SplitV,
        }
    }

    /// The split that runs along the axis.
    pub fn layout(self) -> (r: Layout)
        ensures
            r == self.spec_layout(),
    {
        match self {
            ResizeAxis::Horizontal => Layout::SplitH,
            ResizeAxis::Vertical => Layout::SplitV,
        }
    }
}

impl TileState {
    /// The tile with the place in the list of preset sizes it is at along an axis.
    pub open spec fn with_preset(self, axis: ResizeAxis, idx: Option<usize>) -> TileState {
        match axis {
            ResizeAxis::Horizontal => TileState { floating_preset_width_idx: idx, ..self },
            ResizeAxis::Vertical => TileState { floating_preset_height_idx: idx, ..self },
        }
    }

    pub open spec fn with_motion(self, animating: bool, transitioning: bool) -> TileState {
        TileState { is_animating: animating, is_transitioning: transitioning, ..self }
    }
}

/// The next place in a cyclic list, or the previous one.
pub open spec fn cycled_place(idx: int, len: int, forwards: bool) -> int {
    if forwards {
        (idx + 1) % len
    } else {
        (idx + len - 1) % len
    }
}

/// The preset to take next: the one after the present one, else the first that fits.
pub open spec fn next_preset(
    len: int,
    forwards: bool,
    current: Option<usize>,
    fitting: Option<usize>,
) -> int {
    match current {
        Some(idx) => cycled_place(idx as int, len, forwards),
        None => match fitting {
            Some(idx) => idx as int,
            None => if forwards {
                0
            } else {
                len - 1
            },
        },
    }
}

/// The preset to take next: the one after the present one, or before it. A window at no preset
/// takes `fitting`, the nearest preset beyond its size in that direction, and without one starts
/// over.
pub fn next_preset_idx(
    len: usize,
    forwards: bool,
    current: Option<usize>,
    fitting: Option<usize>,
) -> (r: usize)
    requires
        len > 0,
    ensures
        r == next_preset(len as int, forwards, current, fitting),
{
    match current {
        Some(idx) => {
            let place: usize = idx % len;
            proof {
                lemma_wrapped(place as int, len as int);
                lemma_step_mod(idx as int, len as int);
            }
            if forwards {
                if place + 1 < len {
                    place + 1
                } else {
                    0
                }
            } else if place > 0 {
                place - 1
            } else {
                len - 1
            }
        },
        None => match fitting {
            Some(idx) => idx,
            None => if forwards {
                0
            } else {
                len - 1
            },
        },
    }
}

proof fn lemma_wrapped(place: int, len: int)
    requires
        0 <= place < len,
    ensures
        cycled_place(place, len, true) == if place + 1 < len {
            place + 1
        } else {
            0
        },
        cycled_place(place, len, false) == if place > 0 {
            place - 1
        } else {
            len - 1
        },
{
    if place + 1 < len {
        vstd::arithmetic::div_mod::lemma_small_mod((place + 1) as nat, len as nat);
    } else {
        vstd::arithmetic::div_mod::lemma_mod_self_0(len);
    }
    if place > 0 {
        vstd::arithmetic::div_mod::lemma_small_mod((place - 1) as nat, len as nat);
        vstd::arithmetic::div_mod::lemma_mod_add_multiples_vanish(place - 1, len);
    } else {
        vstd::arithmetic::div_mod::lemma_small_mod((len - 1) as nat, len as nat);
    }
}

proof fn lemma_step_mod(idx: int, len: int)
    requires
        0 <= idx,
        0 < len,
    ensures
        cycled_place(idx, len, true) == cycled_place(idx % len, len, true),
        cycled_place(idx, len, false) == cycled_place(idx % len, len, false),
        0 <= idx % len < len,
{
    vstd::arithmetic::div_mod::lemma_mod_bound(idx, len);
    let m = idx % len;
    let q = idx / len;
    vstd::arithmetic::div_mod::lemma_fundamental_div_mod(idx, len);
    vstd::arithmetic::div_mod::lemma_mod_multiples_vanish(q, m + 1, len);
    vstd::arithmetic::div_mod::lemma_mod_multiples_vanish(q, m + len - 1, len);
}

/// Stepping through the presets forwards and back ends where it began.
pub proof fn law_presets_step_back(idx: int, len: int)
    requires
        0 <= idx < len,
    ensures
        cycled_place(cycled_place(idx, len, true), len, false) == idx,
        cycled_place(cycled_place(idx, len, false), len, true) == idx,
{
    lemma_wrapped(idx, len);
    lemma_wrapped(cycled_place(idx, len, true), len);
    lemma_wrapped(cycled_place(idx, len, false), len);
}

/// Whether a tile is being moved, from the first entry of it: still animated, and still on its
/// way.
pub open spec fn motion_in(motions: Seq<(NodeKey, bool)>, k: NodeKey) -> (bool, bool)
    decreases motions.len(),
{
    if motions.len() == 0 {
        (false, false)
    } else if motions[0].0 == k {
        (true, motions[0].1)
    } else {
        motion_in(motions.drop_first(), k)
    }
}

fn find_motion(motions: &Vec<(NodeKey, bool)>, key: NodeKey) -> (r: (bool, bool))
    ensures
        r == motion_in(motions@, key),
{
    let mut i: usize = 0;
    assert(motions@.skip(0) =~= motions@);
    while i < motions.len()
        invariant
            i <= motions@.len(),
            motion_in(motions@, key) == motion_in(motions@.skip(i as int), key),
        decreases motions@.len() - i,
    {
        assert(motions@.skip(i as int).drop_first() =~= motions@.skip(i as int + 1));
        if motions[i].0 == key {
            return (true, motions[i].1);
        }
        i = i + 1;
    }
    (false, false)
}

impl Tree {
    /// The motion of some windows brought up to date.
    pub open spec fn motions_set(self, keys: Seq<NodeKey>, motions: Seq<(NodeKey, bool)>) -> Tree
        decreases keys.len(),
    {
        if keys.len() == 0 {
            self
        } else {
            let t = self.motions_set(keys.drop_last(), motions);
            let k = keys.last();
            let (animating, transitioning) = motion_in(motions, k);
            t.with_tile(k, t.nodes[k].tile->0.with_motion(animating, transitioning))
        }
    }

    /// A group moved elsewhere, to be arranged there.
    pub open spec fn group_placed(
        self,
        root: NodeKey,
        geometry: FloatingGeometry,
        boxes: Seq<(NodeKey, Rect)>,
    ) -> Tree {
        self.regeometried(root, geometry).with_boxes(boxes).arranging(ArrangeScope::Workspace)
    }

    /// A group given another box, to be arranged in it.
    pub open spec fn group_resized(
        self,
        root: NodeKey,
        geometry: FloatingGeometry,
        boxes: Seq<(NodeKey, Rect)>,
    ) -> Tree {
        self.regeometried(root, geometry).with_boxes(boxes).with_box(
            root,
            geometry.target,
        ).arranging(ArrangeScope::Subtree(root))
    }

    /// The window, or the node, a resize along an axis starts from.
    pub open spec fn resize_base(self, id: Option<WindowId>, root: NodeKey) -> Option<NodeKey> {
        match id {
            Some(id) => self.floating_window(id),
            None => self.position_in(root),
        }
    }

    /// What a resize changes.
    pub open spec fn resize_subject(
        self,
        id: Option<WindowId>,
        root: NodeKey,
        request: ResizeRequest,
    ) -> Option<ResizeSubject> {
        match request {
            ResizeRequest::Edge(_) => Some(ResizeSubject::Group(root)),
            ResizeRequest::Axis(axis) => if id is None && self.split_selected_in(root) {
                Some(ResizeSubject::Group(root))
            } else {
                match self.resize_base(id, root) {
                    None => None,
                    Some(k) => match self.enclosing(k, axis.spec_layout()) {
                        Some((p, i)) => if self.kids(p).len() > 1 {
                            Some(
                                ResizeSubject::Child { root, parent: p, child_idx: i as usize },
                            )
                        } else {
                            Some(ResizeSubject::Group(root))
                        },
                        None => Some(ResizeSubject::Group(root)),
                    },
                }
            },
        }
    }

    /// A resize along an axis leaves the presets of the window it starts from.
    pub open spec fn presets_left(
        self,
        id: Option<WindowId>,
        root: NodeKey,
        request: ResizeRequest,
    ) -> Tree {
        match request {
            ResizeRequest::Edge(_) => self,
            ResizeRequest::Axis(axis) => if id is None && self.split_selected_in(root) {
                self
            } else {
                match self.resize_base(id, root) {
                    Some(k) => self.with_tile(
                        k,
                        self.nodes[k].tile->0.with_preset(axis, None),
                    ),
                    None => self,
                }
            },
        }
    }

    /// A resize begun: the tree it leaves and what it changes.
    pub open spec fn resize_begun(self, id: Option<WindowId>, request: ResizeRequest) -> (
        Tree,
        Option<ResizeSubject>,
    ) {
        let target = if id is Some {
            id
        } else {
            self.active_id()
        };
        let group = match target {
            Some(id) => self.group_of(id),
            None => None,
        };
        match group {
            Some(idx) => (
                self.presets_left(id, self.floating[idx].key, request),
                self.resize_subject(id, self.floating[idx].key, request),
            ),
            None => (self, None),
        }
    }

    /// The window a step through the presets is of, and the preset it takes.
    pub open spec fn preset_toggled(
        self,
        id: Option<WindowId>,
        axis: ResizeAxis,
        forwards: bool,
        presets: int,
        fitting: Option<usize>,
    ) -> Option<(WindowId, usize)> {
        let target = if id is Some {
            id
        } else {
            self.active_id()
        };
        match target {
            Some(id) => match self.floating_window(id) {
                Some(k) => {
                    let current = match axis {
                        ResizeAxis::Horizontal => {
                            self.nodes[k].tile->0.floating_preset_width_idx
                        },
                        ResizeAxis::Vertical => self.nodes[k].tile->0.floating_preset_height_idx,
                    };
                    Some((id, next_preset(presets, forwards, current, fitting) as usize))
                },
                None => None,
            },
            None => None,
        }
    }

    /// The groups given other geometries, from the top of the stack down.
    pub open spec fn groups_retargeted(self, geometries: Seq<FloatingGeometry>) -> Tree
        decreases geometries.len(),
    {
        if geometries.len() == 0 {
            self
        } else {
            let t = self.groups_retargeted(geometries.drop_last());
            let i = geometries.len() - 1;
            if i < t.floating.len() {
                t.regeometried(t.floating[i].key, geometries.last())
            } else {
                t
            }
        }
    }

    /// The groups as they are published, from the bottom of the stack up: the description of
    /// the group at place `i`.
    pub open spec fn published_group(self, i: int, shares: Seq<(NodeKey, Real)>) -> Description {
        let root = self.floating[i].key;
        self.described(
            root,
            seq![(self.floating.len() - 1 - i) as usize],
            None,
            Reporting {
                focused: match self.selected_node() {
                    Some(k) if self.under(k, root) => Some(k),
                    _ => None,
                },
                floating: true,
                shares,
            },
        )
    }

    /// What holds of the floating side: the ids of the groups differ, a window that is not of
    /// normal size owns fullscreen, presets are ones there are, and something is active if and
    /// only if something floats.
    pub open spec fn floating_sound(self, widths: nat, heights: nat) -> bool {
        &&& forall|i: int, j: int|
            0 <= i < j < self.floating.len() ==> (#[trigger] self.floating[i]).id != (
            #[trigger] self.floating[j]).id
        &&& forall|i: int|
            0 <= i < self.floating_leaves_from(0).len() ==> self.tile_sound(
                #[trigger] self.floating_leaves_from(0)[i],
                widths,
                heights,
            )
        &&& match self.active_id() {
            Some(id) => self.group_of(id) is Some,
            None => self.floating.len() == 0,
        }
    }

    pub open spec fn tile_sound(self, k: NodeKey, widths: nat, heights: nat) -> bool {
        let tile = self.nodes[k].tile->0;
        &&& (tile.floating_preset_width_idx matches Some(idx) ==> idx < widths)
        &&& (tile.floating_preset_height_idx matches Some(idx) ==> idx < heights)
        &&& (tile.window.sizing_mode is Normal || (self.fullscreen matches Some(f) && self.is_view(
            f,
        ) && self.nodes[f].tile->0.window.id == tile.window.id))
    }

    /// What a floating window is told when the floating side is refreshed.
    pub open spec fn notice(
        self,
        k: NodeKey,
        resize: Option<(ResizeEdge, NodeKey)>,
        may_activate: bool,
    ) -> WindowNotice {
        let id = self.nodes[k].tile->0.window.id;
        WindowNotice {
            window: id,
            activated: may_activate && self.active_id() == Some(id),
            resize: match resize {
                Some((edges, root)) => if self.group_ids(root).contains(id) {
                    Some(edges)
                } else {
                    None
                },
                None => None,
            },
        }
    }
}

impl Tile {
    fn set_preset(&mut self, axis: ResizeAxis, idx: Option<usize>)
        ensures
            final(self)@ == old(self)@.with_preset(axis, idx),
    {
        match axis {
            ResizeAxis::Horizontal => self.floating_preset_width_idx = idx,
            ResizeAxis::Vertical => self.floating_preset_height_idx = idx,
        }
    }
}

impl FloatingSpace {
    // -----------------------------------------------------------------------------------------
    // Animations
    // -----------------------------------------------------------------------------------------

    /// Shows a floating window opening; false if it does not float.
    pub fn start_open_animation(&self, containers: &mut ContainerArena, id: WindowId) -> (r: bool)
        requires
            old(containers).wf(),
        ensures
            final(containers).wf(),
            r == old(containers)@.floating_window(id) is Some,
            final(containers)@ == match old(containers)@.floating_window(id) {
                Some(k) => old(containers)@.with_tile(
                    k,
                    old(containers)@.nodes[k].tile->0.with_motion(true, true),
                ),
                None => old(containers)@,
            },
            final(containers)@.windows() == old(containers)@.windows(),
            forall|k: NodeKey| #[trigger]
                final(containers)@.loose(k) ==> old(containers)@.loose(k),
            old(containers)@.mentions_live() ==> final(containers)@.mentions_live(),
    {
        let ghost t = containers@;
        proof {
            lemma_window_found(t, id);
        }
        match containers.window_key(id) {
            Some(key) => {
                if !containers.is_in_floating_branch(key) {
                    return false;
                }
                let mut tile = containers.take_tile(key);
                tile.is_animating = true;
                tile.is_transitioning = true;
                containers.put_tile(key, tile, Ghost(t));
                true
            },
            None => false,
        }
    }

    /// Brings the animations up to date. `motions` lists the tiles still animated, each with
    /// whether it is still on its way; `closing` the windows still shown closing.
    pub fn advance_animations(
        &mut self,
        containers: &mut ContainerArena,
        motions: &Vec<(NodeKey, bool)>,
        closing: &Vec<WindowId>,
    )
        requires
            old(containers).wf(),
        ensures
            final(containers).wf(),
            final(containers)@ == old(containers)@.motions_set(
                old(containers)@.floating_leaves_from(0),
                motions@,
            ),
            final(self)@ == (Space {
                closing: crate::space::still_in(old(self)@.closing, closing@),
                ..old(self)@
            }),
            final(containers)@.windows() == old(containers)@.windows(),
            forall|k: NodeKey| #[trigger]
                final(containers)@.loose(k) ==> old(containers)@.loose(k),
            old(containers)@.mentions_live() ==> final(containers)@.mentions_live(),
    {
        let keys = self.tile_keys(containers);
        let ghost t = containers@;
        let mut i: usize = 0;
        assert(keys@.take(0) =~= Seq::empty());
        while i < keys.len()
            invariant
                containers.wf(),
                containers@.windows() == old(containers)@.windows(),
                forall|k: NodeKey| #[trigger]
                    containers@.loose(k) ==> old(containers)@.loose(k),
                old(containers)@.mentions_live() ==> containers@.mentions_live(),
                i <= keys@.len(),
                containers@ == t.motions_set(keys@.take(i as int), motions@),
            decreases keys@.len() - i,
        {
            assert(keys@.take(i as int + 1).drop_last() =~= keys@.take(i as int));
            let key = keys[i];
            let ghost u = containers@;
            if containers.is_leaf(key) {
                let (animating, transitioning) = find_motion(motions, key);
                let mut tile = containers.take_tile(key);
                tile.is_animating = animating;
                tile.is_transitioning = transitioning;
                containers.put_tile(key, tile, Ghost(u));
            }
            i = i + 1;
        }
        assert(keys@.take(i as int) =~= keys@);
        self.keep_closing(closing);
    }

    // -----------------------------------------------------------------------------------------
    // Moves
    // -----------------------------------------------------------------------------------------

    /// Follows the working area: each group, from the top of the stack down, gets the geometry
    /// it has in the new one, and everything is to be arranged again.
    pub fn update_config(
        &mut self,
        containers: &mut ContainerArena,
        geometries: &Vec<FloatingGeometry>,
    )
        requires
            old(containers).wf(),
        ensures
            final(containers).wf(),
            final(self)@ == old(self)@,
            final(containers)@ == old(containers)@.groups_retargeted(geometries@).arranging(
                ArrangeScope::Workspace,
            ),
            final(containers)@.windows() == old(containers)@.windows(),
            forall|k: NodeKey| #[trigger]
                final(containers)@.loose(k) ==> old(containers)@.loose(k),
            old(containers)@.mentions_live() ==> final(containers)@.mentions_live(),
    {
        let ghost t = containers@;
        let mut i: usize = 0;
        assert(geometries@.take(0) =~= Seq::empty());
        while i < geometries.len()
            invariant
                containers.wf(),
                containers@.windows() == old(containers)@.windows(),
                forall|k: NodeKey| #[trigger]
                    containers@.loose(k) ==> old(containers)@.loose(k),
                old(containers)@.mentions_live() ==> containers@.mentions_live(),
                i <= geometries@.len(),
                containers@ == t.groups_retargeted(geometries@.take(i as int)),
            decreases geometries@.len() - i,
        {
            assert(geometries@.take(i as int + 1).drop_last() =~= geometries@.take(i as int));
            if i < containers.floating_root_count() {
                let root = containers.floating()[i].key;
                assert(containers@.floating[i as int].key == root);
                containers.set_floating_geometry(root, geometries[i]);
            }
            i = i + 1;
        }
        assert(geometries@.take(i as int) =~= geometries@);
        containers.layout();
    }

    fn move_container_to(
        &mut self,
        containers: &mut ContainerArena,
        root: NodeKey,
        geometry: FloatingGeometry,
        boxes: &Vec<(NodeKey, Rect)>,
    )
        requires
            old(containers).wf(),
            old(containers)@.is_floating(root),
        ensures
            final(containers).wf(),
            final(containers)@ == old(containers)@.group_placed(root, geometry, boxes@),
            final(self)@ == old(self)@.resize_ended(None),
            final(containers)@.windows() == old(containers)@.windows(),
            forall|k: NodeKey| #[trigger]
                final(containers)@.loose(k) ==> old(containers)@.loose(k),
            old(containers)@.mentions_live() ==> final(containers)@.mentions_live(),
    {
        containers.set_floating_logical_pos(root, geometry, boxes);
        containers.layout();
        self.interactive_resize_end(None);
    }

    /// Moves the group of a window, or of the active one, to the place in `geometry`; `boxes`
    /// are the boxes its nodes have there. What is fullscreen does not move.
    pub fn move_window(
        &mut self,
        containers: &mut ContainerArena,
        id: Option<WindowId>,
        geometry: FloatingGeometry,
        boxes: &Vec<(NodeKey, Rect)>,
    )
        requires
            old(containers).wf(),
            id matches Some(id) ==> old(containers)@.group_of(id) is Some,
        ensures
            final(containers).wf(),
            ({
                let t = old(containers)@;
                let target = if id is Some {
                    id
                } else {
                    t.active_id()
                };
                let group = match target {
                    Some(id) => if t.floating_fullscreen_id() == Some(id) {
                        None
                    } else {
                        t.group_of(id)
                    },
                    None => None,
                };
                match group {
                    Some(idx) => final(containers)@ == t.group_placed(
                        t.floating[idx].key,
                        geometry,
                        boxes@,
                    ) && final(self)@ == old(self)@.resize_ended(None),
                    None => final(containers)@ == t && final(self)@ == old(self)@,
                }
            }),
            final(containers)@.windows() == old(containers)@.windows(),
            forall|k: NodeKey| #[trigger]
                final(containers)@.loose(k) ==> old(containers)@.loose(k),
            old(containers)@.mentions_live() ==> final(containers)@.mentions_live(),
    {
        let id = match self.resolve_target_id(containers, id) {
            Some(id) => id,
            None => {
                return;
            },
        };
        if self.is_fullscreen(containers, id) {
            return;
        }
        if let Some(idx) = self.idx_of(containers, id) {
            let root = containers.floating()[idx].key;
            assert(containers@.floating[idx as int].key == root);
            self.move_container_to(containers, root, geometry, boxes);
        }
    }

    /// Centres the group of a window, or of the active one: `geometry` is the geometry it has
    /// in the middle of the working area.
    pub fn center_window(
        &mut self,
        containers: &mut ContainerArena,
        id: Option<WindowId>,
        geometry: FloatingGeometry,
        boxes: &Vec<(NodeKey, Rect)>,
    )
        requires
            old(containers).wf(),
            id matches Some(id) ==> old(containers)@.group_of(id) is Some,
        ensures
            final(containers).wf(),
            ({
                let t = old(containers)@;
                let target = if id is Some {
                    id
                } else {
                    t.active_id()
                };
                let group = match target {
                    Some(id) => if t.floating_fullscreen_id() == Some(id) {
                        None
                    } else {
                        t.group_of(id)
                    },
                    None => None,
                };
                match group {
                    Some(idx) => final(containers)@ == t.group_placed(
                        t.floating[idx].key,
                        geometry,
                        boxes@,
                    ) && final(self)@ == old(self)@.resize_ended(None),
                    None => final(containers)@ == t && final(self)@ == old(self)@,
                }
            }),
            final(containers)@.windows() == old(containers)@.windows(),
            forall|k: NodeKey| #[trigger]
                final(containers)@.loose(k) ==> old(containers)@.loose(k),
            old(containers)@.mentions_live() ==> final(containers)@.mentions_live(),
    {
        self.move_window(containers, id, geometry, boxes);
    }

    /// Moves the group of a window, fullscreen or not; false if it does not float.
    pub fn move_container_for_window_to(
        &mut self,
        containers: &mut ContainerArena,
        id: WindowId,
        geometry: FloatingGeometry,
        boxes: &Vec<(NodeKey, Rect)>,
    ) -> (r: bool)
        requires
            old(containers).wf(),
        ensures
            final(containers).wf(),
            r == old(containers)@.group_of(id) is Some,
            match old(containers)@.group_of(id) {
                Some(idx) => final(containers)@ == old(containers)@.group_placed(
                    old(containers)@.floating[idx].key,
                    geometry,
                    boxes@,
                ) && final(self)@ == old(self)@.resize_ended(None),
                None => final(containers)@ == old(containers)@ && final(self)@ == old(self)@,
            },
            final(containers)@.windows() == old(containers)@.windows(),
            forall|k: NodeKey| #[trigger]
                final(containers)@.loose(k) ==> old(containers)@.loose(k),
            old(containers)@.mentions_live() ==> final(containers)@.mentions_live(),
    {
        match self.idx_of(containers, id) {
            Some(idx) => {
                let root = containers.floating()[idx].key;
                assert(containers@.floating[idx as int].key == root);
                self.move_container_to(containers, root, geometry, boxes);
                true
            },
            None => false,
        }
    }

    // -----------------------------------------------------------------------------------------
    // Resizes
    // -----------------------------------------------------------------------------------------

    fn resize_from(
        &mut self,
        containers: &mut ContainerArena,
        id: Option<WindowId>,
        request: ResizeRequest,
    ) -> (r: Option<ResizeSubject>)
        requires
            old(containers).wf(),
        ensures
            final(containers).wf(),
            final(self)@ == old(self)@,
            (final(containers)@, r) == old(containers)@.resize_begun(id, request),
            final(containers)@.windows() == old(containers)@.windows(),
            forall|k: NodeKey| #[trigger]
                final(containers)@.loose(k) ==> old(containers)@.loose(k),
            old(containers)@.mentions_live() ==> final(containers)@.mentions_live(),
    {
        let ghost t = containers@;
        let target = match self.resolve_target_id(containers, id) {
            Some(target) => target,
            None => {
                return None;
            },
        };
        let idx: usize = match self.idx_of(containers, target) {
            Some(idx) => idx,
            None => {
                return None;
            },
        };
        let root = containers.floating()[idx].key;
        let axis = match request {
            ResizeRequest::Edge(_) => {
                return Some(ResizeSubject::Group(root));
            },
            ResizeRequest::Axis(axis) => axis,
        };
        if id.is_none() && self.selected_is_container_in(containers, root) {
            return Some(ResizeSubject::Group(root));
        }
        let base = match id {
            Some(id) => containers.window_key(id),
            None => containers.branch_position(root),
        };
        let key = match base {
            Some(key) => key,
            None => {
                return None;
            },
        };
        let holder = containers.find_parent_with_layout(key, axis.layout());
        let subject = match holder {
            Some((parent, child_idx)) => if containers.branch_children_len(parent) > 1 {
                ResizeSubject::Child { root, parent, child_idx }
            } else {
                ResizeSubject::Group(root)
            },
            None => ResizeSubject::Group(root),
        };
        if containers.is_leaf(key) {
            let mut tile = containers.take_tile(key);
            tile.set_preset(axis, None);
            containers.put_tile(key, tile, Ghost(t));
        }
        Some(subject)
    }

    /// Begins a resize of the width of a window, or of what the active group has selected:
    /// answers with what it changes. The window leaves its preset widths.
    pub fn set_window_width(&mut self, containers: &mut ContainerArena, id: Option<WindowId>) -> (r:
        Option<ResizeSubject>)
        requires
            old(containers).wf(),
        ensures
            final(containers).wf(),
            final(self)@ == old(self)@,
            (final(containers)@, r) == old(containers)@.resize_begun(
                id,
                ResizeRequest::Axis(ResizeAxis::Horizontal),
            ),
            final(containers)@.windows() == old(containers)@.windows(),
            forall|k: NodeKey| #[trigger]
                final(containers)@.loose(k) ==> old(containers)@.loose(k),
            old(containers)@.mentions_live() ==> final(containers)@.mentions_live(),
    {
        self.resize_from(containers, id, ResizeRequest::Axis(ResizeAxis::Horizontal))
    }

    /// As [`Self::set_window_width`], for the height.
    pub fn set_window_height(&mut self, containers: &mut ContainerArena, id: Option<WindowId>) -> (r:
        Option<ResizeSubject>)
        requires
            old(containers).wf(),
        ensures
            final(containers).wf(),
            final(self)@ == old(self)@,
            (final(containers)@, r) == old(containers)@.resize_begun(
                id,
                ResizeRequest::Axis(ResizeAxis::Vertical),
            ),
            final(containers)@.windows() == old(containers)@.windows(),
            forall|k: NodeKey| #[trigger]
                final(containers)@.loose(k) ==> old(containers)@.loose(k),
            old(containers)@.mentions_live() ==> final(containers)@.mentions_live(),
    {
        self.resize_from(containers, id, ResizeRequest::Axis(ResizeAxis::Vertical))
    }

    /// Begins a resize of a window, or of what the active group has selected: answers with
    /// what it changes. A window resized along an axis leaves its presets; moving an edge
    /// resizes the group.
    pub fn resize_window(
        &mut self,
        containers: &mut ContainerArena,
        id: Option<WindowId>,
        request: ResizeRequest,
    ) -> (r: Option<ResizeSubject>)
        requires
            old(containers).wf(),
        ensures
            final(containers).wf(),
            final(self)@ == old(self)@,
            (final(containers)@, r) == old(containers)@.resize_begun(id, request),
            final(containers)@.windows() == old(containers)@.windows(),
            forall|k: NodeKey| #[trigger]
                final(containers)@.loose(k) ==> old(containers)@.loose(k),
            old(containers)@.mentions_live() ==> final(containers)@.mentions_live(),
    {
        match request {
            ResizeRequest::Axis(ResizeAxis::Horizontal) => self.set_window_width(containers, id),
            ResizeRequest::Axis(ResizeAxis::Vertical) => self.set_window_height(containers, id),
            ResizeRequest::Edge(_) => self.resize_from(containers, id, request),
        }
    }

    fn toggle_preset(
        &self,
        containers: &ContainerArena,
        id: Option<WindowId>,
        axis: ResizeAxis,
        forwards: bool,
        presets: usize,
        fitting: Option<usize>,
    ) -> (r: Option<(WindowId, usize)>)
        requires
            containers.wf(),
            presets > 0,
        ensures
            r == containers@.preset_toggled(id, axis, forwards, presets as int, fitting),
    {
        proof {
            if let Some(target) = if id is Some { id } else { containers@.active_id() } {
                lemma_window_found(containers@, target);
            }
        }
        let target = match self.resolve_target_id(containers, id) {
            Some(target) => target,
            None => {
                return None;
            },
        };
        let key = match containers.window_key(target) {
            Some(key) => key,
            None => {
                return None;
            },
        };
        if !containers.is_in_floating_branch(key) {
            return None;
        }
        let current = match containers.get_tile(key) {
            Some(tile) => match axis {
                ResizeAxis::Horizontal => tile.floating_preset_width_idx,
                ResizeAxis::Vertical => tile.floating_preset_height_idx,
            },
            None => None,
        };
        Some((target, next_preset_idx(presets, forwards, current, fitting)))
    }

    /// Steps a window, or the active one, through the preset widths: answers with the window
    /// and the preset it is to be resized to. `fitting` is the preset nearest beyond its width.
    pub fn toggle_window_width(
        &self,
        containers: &ContainerArena,
        id: Option<WindowId>,
        forwards: bool,
        presets: usize,
        fitting: Option<usize>,
    ) -> (r: Option<(WindowId, usize)>)
        requires
            containers.wf(),
            presets > 0,
        ensures
            r == containers@.preset_toggled(
                id,
                ResizeAxis::Horizontal,
                forwards,
                presets as int,
                fitting,
            ),
    {
        self.toggle_preset(containers, id, ResizeAxis::Horizontal, forwards, presets, fitting)
    }

    /// As [`Self::toggle_window_width`], for the height.
    pub fn toggle_window_height(
        &self,
        containers: &ContainerArena,
        id: Option<WindowId>,
        forwards: bool,
        presets: usize,
        fitting: Option<usize>,
    ) -> (r: Option<(WindowId, usize)>)
        requires
            containers.wf(),
            presets > 0,
        ensures
            r == containers@.preset_toggled(
                id,
                ResizeAxis::Vertical,
                forwards,
                presets as int,
                fitting,
            ),
    {
        self.toggle_preset(containers, id, ResizeAxis::Vertical, forwards, presets, fitting)
    }

    /// Gives a group another box.
    pub fn resize_group(
        &mut self,
        containers: &mut ContainerArena,
        root: NodeKey,
        geometry: FloatingGeometry,
        boxes: &Vec<(NodeKey, Rect)>,
    ) -> (r: bool)
        requires
            old(containers).wf(),
        ensures
            final(containers).wf(),
            final(self)@ == old(self)@,
            r == old(containers)@.is_floating(root),
            final(containers)@ == if r {
                old(containers)@.group_resized(root, geometry, boxes@)
            } else {
                old(containers)@
            },
            final(containers)@.windows() == old(containers)@.windows(),
            forall|k: NodeKey| #[trigger]
                final(containers)@.loose(k) ==> old(containers)@.loose(k),
            old(containers)@.mentions_live() ==> final(containers)@.mentions_live(),
    {
        if !containers.is_floating_root(root) {
            return false;
        }
        containers.set_floating_logical_pos(root, geometry, boxes);
        containers.set_node_geometry(root, geometry.target);
        containers.arrange_subtree(root);
        true
    }

    /// Gives the children of a split inside a group other shares.
    pub fn resize_child(
        &mut self,
        containers: &mut ContainerArena,
        root: NodeKey,
        parent: NodeKey,
        child_idx: usize,
        layout: Layout,
        shares: &Vec<Real>,
    ) -> (r: bool)
        requires
            old(containers).wf(),
            old(containers)@.is_floating(root),
        ensures
            final(containers).wf(),
            final(self)@ == old(self)@,
            ({
                let t = old(containers)@;
                &&& r == (t.is_parent(parent) && t.nodes[parent].layout == layout && child_idx
                    < t.kids(parent).len() && (t.kids(parent).len() == 1 || shares@.len()
                    == t.kids(parent).len()))
                &&& final(containers)@ == if !r {
                    t
                } else if t.kids(parent).len() == 1 {
                    t.with_share(t.kids(parent)[0], layout, Real::spec_whole()).arranging(
                        ArrangeScope::Workspace,
                    )
                } else {
                    t.with_shares(t.kids(parent), layout, shares@).arranging(
                        ArrangeScope::Workspace,
                    )
                }
            }),
            final(containers)@.windows() == old(containers)@.windows(),
            forall|k: NodeKey| #[trigger]
                final(containers)@.loose(k) ==> old(containers)@.loose(k),
            old(containers)@.mentions_live() ==> final(containers)@.mentions_live(),
    {
        if !containers.set_child_percent(parent, child_idx, layout, shares) {
            return false;
        }
        containers.layout();
        true
    }

    /// Records the preset a window was resized to along an axis, which ends a resize of it.
    pub fn record_preset(
        &mut self,
        containers: &mut ContainerArena,
        id: WindowId,
        axis: ResizeAxis,
        idx: usize,
    )
        requires
            old(containers).wf(),
        ensures
            final(containers).wf(),
            final(self)@ == old(self)@.resize_ended(Some(id)),
            final(containers)@ == match old(containers)@.floating_window(id) {
                Some(k) => old(containers)@.with_tile(
                    k,
                    old(containers)@.nodes[k].tile->0.with_preset(axis, Some(idx)),
                ),
                None => old(containers)@,
            },
            final(containers)@.windows() == old(containers)@.windows(),
            forall|k: NodeKey| #[trigger]
                final(containers)@.loose(k) ==> old(containers)@.loose(k),
            old(containers)@.mentions_live() ==> final(containers)@.mentions_live(),
    {
        let ghost t = containers@;
        proof {
            lemma_window_found(t, id);
        }
        if let Some(key) = containers.window_key(id) {
            if containers.is_in_floating_branch(key) {
                let mut tile = containers.take_tile(key);
                tile.set_preset(axis, Some(idx));
                containers.put_tile(key, tile, Ghost(t));
            }
        }
        self.interactive_resize_end(Some(id));
    }

    /// Takes note of a commit: a group that is one window of normal size resizes from the size
    /// the window committed. False if the window does not float.
    pub fn update_window(
        &mut self,
        containers: &mut ContainerArena,
        id: WindowId,
        tile_size: Size,
    ) -> (r: bool)
        requires
            old(containers).wf(),
        ensures
            final(containers).wf(),
            final(self)@ == old(self)@,
            r == old(containers)@.group_of(id) is Some,
            ({
                let t = old(containers)@;
                final(containers)@ == match t.group_of(id) {
                    Some(idx) => {
                        let entry = t.floating[idx];
                        if t.is_view(entry.key)
                            && t.nodes[entry.key].tile->0.window.sizing_mode is Normal {
                            t.regeometried(
                                entry.key,
                                (FloatingGeometry {
                                    resize_base_size: tile_size,
                                    ..entry.geometry
                                }),
                            )
                        } else {
                            t
                        }
                    },
                    None => t,
                }
            }),
            final(containers)@.windows() == old(containers)@.windows(),
            forall|k: NodeKey| #[trigger]
                final(containers)@.loose(k) ==> old(containers)@.loose(k),
            old(containers)@.mentions_live() ==> final(containers)@.mentions_live(),
    {
        let idx: usize = match self.idx_of(containers, id) {
            Some(idx) => idx,
            None => {
                return false;
            },
        };
        let root = containers.floating()[idx].key;
        let normal = match containers.get_tile(root) {
            Some(tile) => tile.window.sizing_mode == SizingMode::Normal,
            None => false,
        };
        if normal {
            proof {
                crate::swap::lemma_stack_index(containers@, root, idx as int);
            }
            containers.record_floating_resize_base(root, tile_size);
        }
        true
    }

    // -----------------------------------------------------------------------------------------
    // What is published, what windows are told, what holds
    // -----------------------------------------------------------------------------------------

    /// The groups as they are published, from the bottom of the stack up, each with how it came
    /// to be.
    pub fn layout_tree_nodes(&self, containers: &ContainerArena, shares: &Vec<(NodeKey, Real)>) -> (r:
        Vec<(LayoutTreeNode, FloatingRootKind)>)
        requires
            containers.wf(),
        ensures
            r@.len() == containers@.floating.len(),
            forall|i: int|
                0 <= i < r@.len() ==> (#[trigger] r@[i]).0@ == containers@.published_group(
                    containers@.floating.len() - 1 - i,
                    shares@,
                ) && Some(r@[i].1) == containers@.kind_at(containers@.floating.len() - 1 - i),
    {
        let floating = containers.floating();
        let count: usize = floating.len();
        let selected = containers.selected_node_key();
        let ghost t = containers@;
        let mut out: Vec<(LayoutTreeNode, FloatingRootKind)> = Vec::new();
        let mut i: usize = 0;
        while i < count
            invariant
                containers.wf(),
                i <= count,
                t == containers@,
                floating@ == t.floating,
                count == t.floating.len(),
                selected == t.selected_node(),
                out@.len() == i,
                forall|j: int|
                    0 <= j < i ==> (#[trigger] out@[j]).0@ == t.published_group(
                        count - 1 - j,
                        shares@,
                    ) && Some(out@[j].1) == t.kind_at(count - 1 - j),
            decreases count - i,
        {
            let place: usize = count - 1 - i;
            let root = floating[place].key;
            let focused = match selected {
                Some(key) => if containers.is_descendant(key, root) {
                    Some(key)
                } else {
                    None
                },
                None => None,
            };
            let mut path: Vec<usize> = Vec::new();
            path.push(i);
            proof {
                assert(path@ =~= seq![(t.floating.len() - 1 - place) as usize]);
                assert(t.parents.contains_key(t.floating[place as int].key));
            }
            let node = containers.layout_tree_for_branch(root, focused, &mut path, true, shares);
            let kind = containers.floating_root_kind_at(place);
            out.push((node.unwrap(), kind.unwrap()));
            i = i + 1;
        }
        out
    }

    /// What each floating window is told when the floating side is refreshed, in the order of
    /// [`Self::tiles`]. Only the active window of an active workspace is activated; where
    /// unfocused windows are deactivated, the side has to be focused too.
    pub fn refresh(
        &self,
        containers: &ContainerArena,
        is_active: bool,
        is_focused: bool,
        deactivate_unfocused: bool,
    ) -> (r: Vec<WindowNotice>)
        requires
            containers.wf(),
        ensures
            ({
                let t = containers@;
                let resize = match self@.resize {
                    Some(resize) => match t.group_of(resize.window) {
                        Some(idx) => Some((resize.edges, t.floating[idx].key)),
                        None => None,
                    },
                    None => None,
                };
                let may = is_active && (is_focused || !deactivate_unfocused);
                &&& r@.len() == t.floating_leaves_from(0).len()
                &&& forall|i: int|
                    0 <= i < r@.len() ==> #[trigger] r@[i] == t.notice(
                        t.floating_leaves_from(0)[i],
                        resize,
                        may,
                    )
            }),
    {
        let ghost t = containers@;
        let active = self.active_window_id(containers);
        let may = is_active && (is_focused || !deactivate_unfocused);
        let mut resized: Vec<WindowId> = Vec::new();
        let mut edges: Option<ResizeEdge> = None;
        if let Some(resize) = self.resize_in_progress() {
            if let Some(idx) = self.idx_of(containers, resize.window) {
                resized = containers.window_ids_under(containers.floating()[idx].key);
                edges = Some(resize.edges);
            }
        }
        let ghost resize = match self@.resize {
            Some(resize) => match t.group_of(resize.window) {
                Some(idx) => Some((resize.edges, t.floating[idx].key)),
                None => None,
            },
            None => None,
        };
        let tiles = self.tiles(containers);
        let mut out: Vec<WindowNotice> = Vec::new();
        let mut i: usize = 0;
        while i < tiles.len()
            invariant
                i <= tiles@.len(),
                t == containers@,
                tiles@.len() == t.floating_leaves_from(0).len(),
                forall|j: int|
                    0 <= j < tiles@.len() ==> #[trigger] tiles@[j]@
                        == t.nodes[t.floating_leaves_from(0)[j]].tile->0,
                active == t.active_id(),
                match resize {
                    Some((e, root)) => edges == Some(e) && resized@ == t.group_ids(root),
                    None => edges is None,
                },
                out@.len() == i,
                forall|j: int|
                    0 <= j < i ==> #[trigger] out@[j] == t.notice(
                        t.floating_leaves_from(0)[j],
                        resize,
                        may,
                    ),
            decreases tiles@.len() - i,
        {
            assert(tiles@[i as int]@ == t.nodes[t.floating_leaves_from(0)[i as int]].tile->0);
            let id = tiles[i].window.id;
            let told = match edges {
                Some(edges) => if crate::space::lists_id(&resized, id) {
                    Some(edges)
                } else {
                    None
                },
                None => None,
            };
            out.push(
                WindowNotice { window: id, activated: may && active == Some(id), resize: told },
            );
            i = i + 1;
        }
        out
    }

    /// Whether everything holds that holds of the floating side, given how many preset widths
    /// and heights there are.
    pub fn verify_invariants(
        &self,
        containers: &ContainerArena,
        widths: usize,
        heights: usize,
    ) -> (r: bool)
        requires
            containers.wf(),
        ensures
            r == (containers@.floating_sound(widths as nat, heights as nat) && (
            self@.resize matches Some(resize) ==> containers@.group_of(resize.window) is Some)),
    {
        if !self.verify_ids(containers) || !self.verify_tiles(containers, widths, heights) {
            return false;
        }
        match self.active_window_id(containers) {
            Some(id) => {
                if !self.contains(containers, id) {
                    return false;
                }
            },
            None => {
                if containers.floating_root_count() != 0 {
                    return false;
                }
            },
        }
        match self.resize_in_progress() {
            Some(resize) => self.contains(containers, resize.window),
            None => true,
        }
    }

    fn verify_ids(&self, containers: &ContainerArena) -> (r: bool)
        ensures
            r == forall|i: int, j: int|
                0 <= i < j < containers@.floating.len() ==> (#[trigger] containers@.floating[i]).id
                    != (#[trigger] containers@.floating[j]).id,
    {
        let floating = containers.floating();
        let mut j: usize = 0;
        while j < floating.len()
            invariant
                j <= floating@.len(),
                floating@ == containers@.floating,
                forall|a: int, b: int|
                    0 <= a < b < j ==> (#[trigger] floating@[a]).id != (#[trigger] floating@[b]).id,
            decreases floating@.len() - j,
        {
            let mut i: usize = 0;
            while i < j
                invariant
                    i <= j,
                    j < floating@.len(),
                    floating@ == containers@.floating,
                    forall|a: int|
                        0 <= a < i ==> (#[trigger] floating@[a]).id != floating@[j as int].id,
                decreases j - i,
            {
                if floating[i].id == floating[j].id {
                    assert(containers@.floating[i as int].id == containers@.floating[j as int].id);
                    return false;
                }
                i = i + 1;
            }
            j = j + 1;
        }
        true
    }

    fn verify_tiles(&self, containers: &ContainerArena, widths: usize, heights: usize) -> (r: bool)
        requires
            containers.wf(),
        ensures
            r == forall|i: int|
                0 <= i < containers@.floating_leaves_from(0).len() ==> containers@.tile_sound(
                    #[trigger] containers@.floating_leaves_from(0)[i],
                    widths as nat,
                    heights as nat,
                ),
    {
        let tiles = self.tiles(containers);
        let ghost keys = containers@.floating_leaves_from(0);
        let mut i: usize = 0;
        while i < tiles.len()
            invariant
                i <= tiles@.len(),
                keys == containers@.floating_leaves_from(0),
                tiles@.len() == keys.len(),
                forall|j: int|
                    0 <= j < tiles@.len() ==> #[trigger] tiles@[j]@ == containers@.nodes[
                        containers@.floating_leaves_from(0)[j]
                    ].tile->0,
                forall|j: int|
                    0 <= j < i ==> containers@.tile_sound(
                        #[trigger] keys[j],
                        widths as nat,
                        heights as nat,
                    ),
            decreases tiles@.len() - i,
        {
            assert(tiles@[i as int]@ == containers@.nodes[keys[i as int]].tile->0);
            let width_ok = match tiles[i].floating_preset_width_idx {
                Some(idx) => idx < widths,
                None => true,
            };
            let height_ok = match tiles[i].floating_preset_height_idx {
                Some(idx) => idx < heights,
                None => true,
            };
            let size_ok = tiles[i].window.sizing_mode == SizingMode::Normal
                || containers.window_owns_fullscreen(tiles[i].window.id);
            if !width_ok || !height_ok || !size_ok {
                assert(!containers@.tile_sound(keys[i as int], widths as nat, heights as nat));
                return false;
            }
            i = i + 1;
        }
        true
    }
}

} // verus!
