//! Windows and containers coming to the floating side, and leaving it.

use crate::arena::ContainerArena;
use crate::axis::NodeKey;
use crate::cache::ArrangeScope;
use crate::floats::InactiveTilingReference;
use crate::measure::{IntSize, Point, Rect};
use crate::node::Node;
use crate::space::{lemma_window_found, lists_id, FloatingSpace, RemovedTile, Space};
use crate::tile::{
    Hint, InsertParentInfo, ReinsertHint, SizingMode, Slot, Tile, TileRequest, TileState,
    WindowId,
};
use crate::tree::{FloatingGeometry, FloatingRootKind, Tree};
use vstd::prelude::*;

verus! {

impl Tree {
    /// Fullscreen handed to a node, or to none. The box of the new owner is kept for later.
    pub open spec fn owned_by(self, key: Option<NodeKey>) -> Tree {
        if self.fullscreen != key && (key matches Some(k) ==> k != self.root && self.has(k)) {
            let t = match self.fullscreen {
                Some(former) => self.with_restore(former, None),
                None => self,
            };
            let u = match key {
                Some(k) => t.with_restore(k, t.box_of(k)),
                None => t,
            };
            u.with_fullscreen(key)
        } else {
            self
        }
    }

    /// A window that comes to the floating side as a group of its own, at place `idx` or above
    /// the window it is a dialog of, with its dialogs above it.
    #[verifier::opaque]
    pub open spec fn tile_floated(
        self,
        idx: int,
        tile: TileState,
        activate: bool,
        geometry: FloatingGeometry,
        output: IntSize,
    ) -> Tree {
        let arrived = tile.arriving(output);
        let at = self.above_parent(tile.window.parent, idx, 0);
        let a = self.superseded().added(arrived.key, Node::view_of(arrived)).registered(
            arrived.key,
            geometry,
            at,
            FloatingRootKind::ImplicitWindowGroup,
        );
        let b = if tile.window.sizing_mode is Fullscreen && a.fullscreen is None {
            a.owned_by(Some(arrived.key))
        } else {
            a
        };
        let c = if activate || b.seat.leaf is None {
            b.focused(arrived.key)
        } else {
            b
        };
        c.arranging(ArrangeScope::Workspace).dialogs_raised(at)
    }

    /// The subtree of a container to be arranged, if it is one that lays out children.
    pub open spec fn arranging_below(self, k: NodeKey) -> Tree {
        if self.is_parent(k) {
            self.arranging(ArrangeScope::Subtree(k))
        } else {
            self
        }
    }

    /// A window that joins a floating group: at the end of the root when the root is selected,
    /// else beside the target of the group.
    pub open spec fn tile_joined(
        self,
        root: NodeKey,
        tile: TileState,
        activate: bool,
        wide: bool,
    ) -> Tree {
        let asked = tile.floating_asked();
        let a = if self.seat.selected == Some(root) && self.is_split(root) {
            self.added(asked.key, Node::view_of(asked)).joined_to(
                root,
                self.kids(root).len() as int,
                asked.key,
                activate,
            )
        } else {
            self.window_mapped(root, asked, activate, wide)
        };
        let b = a.arranging_below(root);
        if activate {
            b.activated(tile.window.id).0
        } else {
            b
        }
    }

    /// A window that comes back to the place it had in a floating group.
    #[verifier::opaque]
    pub open spec fn tile_restored(
        self,
        root: NodeKey,
        tile: TileState,
        activate: bool,
        slot: Slot,
    ) -> Tree {
        let asked = tile.floating_asked();
        let a = self.added(asked.key, Node::view_of(asked)).joined_at_slot(
            root,
            slot,
            asked.key,
            activate,
        ).arranging_below(root);
        if activate {
            a.activated(tile.window.id).0
        } else {
            a
        }
    }

    /// The group of an id, by its place on the stack.
    pub open spec fn place_of_id(self, id: u64, i: int) -> Option<int>
        decreases self.floating.len() - i,
    {
        if i < 0 || i >= self.floating.len() {
            None
        } else if self.floating[i].id == id {
            Some(i)
        } else {
            self.place_of_id(id, i + 1)
        }
    }

    /// The root a hint leads back to: a group that is still there and is a container.
    pub open spec fn hinted_root(self, hint: Option<Hint>) -> Option<NodeKey> {
        match hint {
            Some(hint) => match (hint.info, self.place_of_id(hint.root_id, 0)) {
                (Some(_), Some(i)) => if self.is_view(self.floating[i].key) {
                    None
                } else {
                    Some(self.floating[i].key)
                },
                _ => None,
            },
            None => None,
        }
    }

    /// The tile of a window of a floated subtree: the one that owns fullscreen keeps it, any
    /// other is asked for its floating size.
    pub open spec fn floated_tile(
        self,
        k: NodeKey,
        owner: Option<NodeKey>,
        restore: Option<IntSize>,
        output: IntSize,
    ) -> TileState {
        let tile = self.nodes[k].tile->0;
        if owner == Some(k) && tile.window.sizing_mode is Fullscreen {
            tile.kept_fullscreen(restore, output)
        } else {
            tile.floating_asked()
        }
    }

    /// The windows of a floated subtree prepared, but for one that is already.
    pub open spec fn floated_tiles(
        self,
        keys: Seq<NodeKey>,
        done: Option<NodeKey>,
        owner: Option<NodeKey>,
        restore: Option<IntSize>,
        output: IntSize,
    ) -> Tree
        decreases keys.len(),
    {
        if keys.len() == 0 {
            self
        } else {
            let t = self.floated_tiles(keys.drop_last(), done, owner, restore, output);
            let k = keys.last();
            if done == Some(k) {
                t
            } else {
                t.with_tile(k, t.floated_tile(k, owner, restore, output))
            }
        }
    }

    /// A window of the tiled side prepared to float: one that owns fullscreen keeps it, any
    /// other starts from its natural size.
    pub open spec fn leaf_prepared(
        self,
        k: NodeKey,
        restore: Option<IntSize>,
        output: IntSize,
    ) -> Tree {
        if self.is_view(k) {
            let tile = self.nodes[k].tile->0;
            self.with_tile(
                k,
                if self.fullscreen == Some(k) && tile.window.sizing_mode is Fullscreen {
                    tile.kept_fullscreen(restore, output)
                } else {
                    tile.newly_floating(output)
                },
            )
        } else {
            self
        }
    }

    /// A tiled subtree, or the whole workspace, floated on top of the stack.
    pub open spec fn subtree_arrived(
        self,
        k: NodeKey,
        geometry: FloatingGeometry,
        restore: Option<IntSize>,
        output: IntSize,
        whole: bool,
    ) -> (Tree, bool) {
        let a = self.leaf_prepared(k, restore, output);
        let (b, root) = if whole {
            if a.leaf_under(a.root) is Some {
                (a.workspace_floated(geometry, 0), Some(NodeKey { id: a.next_key }))
            } else {
                (a, None)
            }
        } else if a.floatable(k) {
            (
                a.subtree_floated(
                    k,
                    geometry,
                    0,
                    if self.is_view(k) {
                        FloatingRootKind::ImplicitWindowGroup
                    } else {
                        FloatingRootKind::FloatedContainer
                    },
                ),
                Some(k),
            )
        } else {
            (a, None)
        };
        match root {
            Some(root) => {
                let c = b.with_box(root, geometry.target);
                let d = c.floated_tiles(
                    c.leaves(root),
                    if self.is_view(k) {
                        Some(k)
                    } else {
                        None
                    },
                    self.fullscreen,
                    restore,
                    output,
                );
                (d.arranging(ArrangeScope::Workspace).dialogs_raised(0), true)
            },
            None => (b, false),
        }
    }

    /// The sizes of some windows kept for when they float again.
    pub open spec fn sizes_stored(self, keys: Seq<NodeKey>) -> Tree
        decreases keys.len(),
    {
        if keys.len() == 0 {
            self
        } else {
            let t = self.sizes_stored(keys.drop_last());
            t.with_tile(keys.last(), t.nodes[keys.last()].tile->0.size_stored())
        }
    }

    /// A window gone from its floating group, and the group with it when it was the last one.
    pub open spec fn window_left(self, k: NodeKey) -> Tree {
        let root = self.branch(k);
        let a = self.window_gone(k);
        if a.leaves(root).len() == 0 && (a.is_floating(root) || !a.has(root)) {
            a.forgotten(root)
        } else {
            a
        }
    }

    /// The tile a floating window leaves with: it remembers where its group was and its place in
    /// it.
    pub open spec fn leaving_tile(self, k: NodeKey) -> TileState {
        let entry = self.floating[self.stack_index(self.branch(k))];
        TileState {
            floating_pos: Some(entry.geometry.pos),
            floating_reinsert_hint: Some(
                (Hint { root_id: entry.id, info: self.slot_at(self.branch(k), self.address(k)) }),
            ),
            ..self.nodes[k].tile->0.size_stored()
        }
    }

    /// A group back in the tiling: as the workspace itself, beside a tiled node, or at the end.
    pub open spec fn group_returned(
        self,
        root: NodeKey,
        reference: Option<NodeKey>,
        as_workspace: bool,
    ) -> (Tree, bool) {
        let a = self.sizes_stored(self.leaves(root));
        let (b, done) = if as_workspace {
            a.wrapper_unfloated(root)
        } else {
            match reference {
                Some(r) => a.placed_by(root, r),
                None => a.placed_at_end(root),
            }
        };
        if done {
            (b.arranging(ArrangeScope::Workspace), true)
        } else {
            (b, false)
        }
    }

    /// One floating window back in the tiling. It remembers its size and its place.
    pub open spec fn window_returned(self, id: WindowId, reference: Option<NodeKey>) -> (Tree, bool) {
        match self.floating_window(id) {
            Some(k) => {
                let pos = self.floating[self.group_of(id)->0].geometry.pos;
                let a = self.with_tile(
                    k,
                    TileState {
                        floating_pos: Some(pos),
                        is_scratchpad: false,
                        ..self.nodes[k].tile->0.size_stored()
                    },
                );
                let (b, gone) = a.node_unfloated(k, reference);
                if gone is Some {
                    (b.arranging(ArrangeScope::Workspace), true)
                } else {
                    (b, false)
                }
            },
            None => (self, false),
        }
    }

    // -----------------------------------------------------------------------------------------
    // Fullscreen
    // -----------------------------------------------------------------------------------------

    /// A floating window out of fullscreen: its group gets the box it is resized from, at `restored`,
    /// and the window is asked for its floating size.
    pub open spec fn fullscreen_left(self, id: WindowId, restored: Point) -> Tree {
        let k = self.floating_window(id);
        let a = match self.group_of(id) {
            Some(idx) => self.regeometried(
                self.floating[idx].key,
                self.floating[idx].geometry.retargeted(restored),
            ),
            None => self,
        };
        let b = match k {
            Some(k) => a.asked(
                k,
                TileRequest::WindowSize {
                    size: match a.nodes[k].tile->0.floating_window_size {
                        Some(size) => size,
                        None => IntSize::spec_zero(),
                    },
                    animate: true,
                },
            ),
            None => a,
        };
        b.owned_by(None).arranging(ArrangeScope::Workspace)
    }

    /// A floating window that nothing keeps from it made fullscreen.
    pub open spec fn fullscreen_entered(self, id: WindowId) -> Tree {
        match self.floating_window(id) {
            Some(k) => self.with_tile(k, self.nodes[k].tile->0.size_stored()).asked(
                k,
                TileRequest::Fullscreen { animate: true },
            ).owned_by(Some(k)).arranging(ArrangeScope::Workspace),
            None => self,
        }
    }

    /// A floating window made fullscreen, or no longer so, and whether it has to be asked for
    /// again. The window that was fullscreen on the floating side gives it up first, and is
    /// arranged before the other takes over.
    pub open spec fn fullscreen_switched(
        self,
        id: WindowId,
        is_fullscreen: bool,
        restored: Point,
    ) -> (Tree, bool) {
        if self.floating_fullscreen_id() == Some(id) {
            if is_fullscreen {
                (self, false)
            } else {
                (self.fullscreen_left(id, restored), false)
            }
        } else if !is_fullscreen {
            (self, false)
        } else {
            match self.floating_fullscreen_id() {
                Some(previous) => (self.fullscreen_left(previous, restored), true),
                None => (self.fullscreen_entered(id), false),
            }
        }
    }
}

impl ContainerArena {
    fn own_fullscreen(&mut self, key: Option<NodeKey>)
        requires
            old(self).wf(),
        ensures
            final(self).wf(),
            final(self)@ == old(self)@.owned_by(key),
            final(self)@.windows() == old(self)@.windows(),
            forall|k: NodeKey| #[trigger] final(self)@.loose(k) ==> old(self)@.loose(k),
            old(self)@.mentions_live() ==> final(self)@.mentions_live(),
    {
        self.set_fullscreen_key(key);
    }

    /// Keeps the size of a window for when it floats again.
    pub fn store_size_of(&mut self, key: NodeKey)
        requires
            old(self).wf(),
        ensures
            final(self).wf(),
            final(self)@ == old(self)@.with_tile(
                key,
                old(self)@.nodes[key].tile->0.size_stored(),
            ),
            final(self)@.windows() == old(self)@.windows(),
            forall|k: NodeKey| #[trigger] final(self)@.loose(k) ==> old(self)@.loose(k),
            old(self)@.mentions_live() ==> final(self)@.mentions_live(),
    {
        let ghost t = self@;
        if self.is_leaf(key) {
            let mut tile = self.take_tile(key);
            tile.store_floating_size_for_restore();
            self.put_tile(key, tile, Ghost(t));
        }
    }

    fn store_sizes(&mut self, keys: &Vec<NodeKey>)
        requires
            old(self).wf(),
        ensures
            final(self).wf(),
            final(self)@ == old(self)@.sizes_stored(keys@),
            final(self)@.windows() == old(self)@.windows(),
            forall|k: NodeKey| #[trigger] final(self)@.loose(k) ==> old(self)@.loose(k),
            old(self)@.mentions_live() ==> final(self)@.mentions_live(),
    {
        let ghost t = self@;
        let mut i: usize = 0;
        assert(keys@.take(0) =~= Seq::empty());
        while i < keys.len()
            invariant
                self.wf(),
                forall|k: NodeKey| #[trigger] self@.loose(k) ==> old(self)@.loose(k),
                old(self)@.mentions_live() ==> self@.mentions_live(),
                self@.windows() == old(self)@.windows(),
                i <= keys@.len(),
                self@ == t.sizes_stored(keys@.take(i as int)),
            decreases keys@.len() - i,
        {
            assert(keys@.take(i as int + 1).drop_last() =~= keys@.take(i as int));
            self.store_size_of(keys[i]);
            i = i + 1;
        }
        assert(keys@.take(i as int) =~= keys@);
    }

    fn prepare_leaf(&mut self, key: NodeKey, restore: Option<IntSize>, output: IntSize)
        requires
            old(self).wf(),
        ensures
            final(self).wf(),
            final(self)@ == old(self)@.leaf_prepared(key, restore, output),
            final(self)@.windows() == old(self)@.windows(),
            forall|k: NodeKey| #[trigger] final(self)@.loose(k) ==> old(self)@.loose(k),
            old(self)@.mentions_live() ==> final(self)@.mentions_live(),
    {
        let ghost t = self@;
        if self.is_leaf(key) {
            let owner = self.fullscreen_key();
            let mut tile = self.take_tile(key);
            if owner == Some(key) && tile.window.sizing_mode == SizingMode::Fullscreen {
                tile.preserve_fullscreen_tile_for_floating(restore, output);
            } else {
                tile.prepare_natural_size(output);
            }
            self.put_tile(key, tile, Ghost(t));
        }
    }

    #[verifier::spinoff_prover]
    fn prepare_floated_tiles(
        &mut self,
        keys: &Vec<NodeKey>,
        done: Option<NodeKey>,
        owner: Option<NodeKey>,
        restore: Option<IntSize>,
        output: IntSize,
    )
        requires
            old(self).wf(),
        ensures
            final(self).wf(),
            final(self)@ == old(self)@.floated_tiles(keys@, done, owner, restore, output),
            final(self)@.windows() == old(self)@.windows(),
            forall|k: NodeKey| #[trigger] final(self)@.loose(k) ==> old(self)@.loose(k),
            old(self)@.mentions_live() ==> final(self)@.mentions_live(),
    {
        let ghost t = self@;
        let mut i: usize = 0;
        assert(keys@.take(0) =~= Seq::empty());
        while i < keys.len()
            invariant
                self.wf(),
                forall|k: NodeKey| #[trigger] self@.loose(k) ==> old(self)@.loose(k),
                old(self)@.mentions_live() ==> self@.mentions_live(),
                self@.windows() == old(self)@.windows(),
                i <= keys@.len(),
                self@ == t.floated_tiles(keys@.take(i as int), done, owner, restore, output),
            decreases keys@.len() - i,
        {
            assert(keys@.take(i as int + 1).drop_last() =~= keys@.take(i as int));
            let key = keys[i];
            let ghost u = self@;
            if done != Some(key) && self.is_leaf(key) {
                let mut tile = self.take_tile(key);
                if owner == Some(key) && tile.window.sizing_mode == SizingMode::Fullscreen {
                    tile.preserve_fullscreen_tile_for_floating(restore, output);
                } else {
                    tile.prepare_tile_for_floating();
                }
                self.put_tile(key, tile, Ghost(u));
            }
            i = i + 1;
        }
        assert(keys@.take(i as int) =~= keys@);
    }
}

impl FloatingSpace {
    fn place_above_parent(
        &self,
        containers: &ContainerArena,
        parent: Option<WindowId>,
        idx: usize,
    ) -> (r: usize)
        requires
            containers.wf(),
        ensures
            r == containers@.above_parent(parent, idx as int, 0),
            r <= idx,
    {
        let floating = containers.floating();
        let mut i: usize = 0;
        while i < idx && i < floating.len()
            invariant
                containers.wf(),
                i <= idx,
                i <= floating@.len(),
                floating@ == containers@.floating,
                containers@.above_parent(parent, idx as int, 0) == containers@.above_parent(
                    parent,
                    idx as int,
                    i as int,
                ),
            decreases idx - i,
        {
            if let Some(p) = parent {
                let ids = containers.window_ids_under(floating[i].key);
                if lists_id(&ids, p) {
                    return i;
                }
            }
            i = i + 1;
        }
        idx
    }

    #[verifier::spinoff_prover]
    fn add_tile_at(
        &mut self,
        containers: &mut ContainerArena,
        idx: usize,
        tile: Tile,
        activate: bool,
        geometry: FloatingGeometry,
        output: IntSize,
    )
        requires
            old(containers).wf(),
            old(containers)@.expects(tile@.key),
            old(containers)@.next_floating_id < u64::MAX,
            idx <= old(containers)@.floating.len(),
        ensures
            final(containers).wf(),
            final(self)@ == old(self)@,
            final(containers)@ == old(containers)@.tile_floated(
                idx as int,
                tile@,
                activate,
                geometry,
                output,
            ),
            final(containers)@.windows() == old(containers)@.windows().insert(
                tile@.key,
                tile@.window.id,
            ),
            forall|k: NodeKey| #[trigger]
                final(containers)@.loose(k) ==> old(containers)@.loose(k),
            old(containers)@.mentions_live() ==> final(containers)@.mentions_live(),
    {
        reveal(Tree::tile_floated);
        let mut tile = tile;
        let maps_fullscreen = tile.window.sizing_mode == SizingMode::Fullscreen;
        let parent = tile.window.parent;
        tile.prepare_arrival(output);
        let at: usize = self.place_above_parent(containers, parent, idx);
        let (_, leaf) = containers.float_new_group(tile, geometry, at);
        let ghost grown = containers@.floating.len();
        if maps_fullscreen && containers.fullscreen_key().is_none() {
            containers.own_fullscreen(Some(leaf));
        }
        if activate || containers.focused_key().is_none() {
            containers.focus_node(leaf);
        }
        containers.layout();
        self.bring_up_descendants_of(containers, at);
    }

    /// Adds a window to the floating side, on top, as a group of its own. `geometry` is the
    /// geometry of the group, made for the size [`Tile::arriving_size`] answers with.
    pub fn add_tile(
        &mut self,
        containers: &mut ContainerArena,
        tile: Tile,
        activate: bool,
        geometry: FloatingGeometry,
        output: IntSize,
    )
        requires
            old(containers).wf(),
            old(containers)@.expects(tile@.key),
            old(containers)@.next_floating_id < u64::MAX,
        ensures
            final(containers).wf(),
            final(self)@ == old(self)@,
            final(containers)@ == old(containers)@.tile_floated(
                0,
                tile@,
                activate,
                geometry,
                output,
            ),
            final(containers)@.windows() == old(containers)@.windows().insert(
                tile@.key,
                tile@.window.id,
            ),
            forall|k: NodeKey| #[trigger]
                final(containers)@.loose(k) ==> old(containers)@.loose(k),
            old(containers)@.mentions_live() ==> final(containers)@.mentions_live(),
    {
        self.add_tile_at(containers, 0, tile, activate, geometry, output);
    }

    /// Adds a window right above the group of another one. The place it is to have is the one
    /// in `geometry`.
    pub fn add_tile_above(
        &mut self,
        containers: &mut ContainerArena,
        above: WindowId,
        tile: Tile,
        activate: bool,
        geometry: FloatingGeometry,
        output: IntSize,
    )
        requires
            old(containers).wf(),
            old(containers)@.expects(tile@.key),
            old(containers)@.next_floating_id < u64::MAX,
            old(containers)@.group_of(above) is Some,
        ensures
            final(containers).wf(),
            final(self)@ == old(self)@,
            final(containers)@ == old(containers)@.tile_floated(
                old(containers)@.group_of(above)->0,
                (TileState { floating_pos: Some(geometry.pos), ..tile@ }),
                activate,
                geometry,
                output,
            ),
            final(containers)@.windows() == old(containers)@.windows().insert(
                tile@.key,
                tile@.window.id,
            ),
            forall|k: NodeKey| #[trigger]
                final(containers)@.loose(k) ==> old(containers)@.loose(k),
            old(containers)@.mentions_live() ==> final(containers)@.mentions_live(),
    {
        let mut tile = tile;
        tile.floating_pos = Some(geometry.pos);
        if let Some(idx) = self.idx_of(containers, above) {
            self.add_tile_at(containers, idx, tile, activate, geometry, output);
        }
    }

    fn add_tile_to_container(
        &mut self,
        containers: &mut ContainerArena,
        root: NodeKey,
        tile: Tile,
        activate: bool,
        wide: bool,
    )
        requires
            old(containers).wf(),
            old(containers)@.expects(tile@.key),
            old(containers)@.next_key < u64::MAX,
            old(containers)@.is_floating(root),
        ensures
            final(containers).wf(),
            final(self)@ == old(self)@,
            final(containers)@ == old(containers)@.tile_joined(root, tile@, activate, wide),
            final(containers)@.windows() == old(containers)@.windows().insert(
                tile@.key,
                tile@.window.id,
            ),
            old(containers)@.is_parent(root) ==> forall|k: NodeKey| #[trigger]
                final(containers)@.loose(k) ==> old(containers)@.loose(k),
            old(containers)@.mentions_live() ==> final(containers)@.mentions_live(),
    {
        let mut tile = tile;
        let id = tile.window.id;
        proof {
            let i = choose|i: int|
                0 <= i < containers@.floating.len() && #[trigger] containers@.floating[i].key
                    == root;
            assert(containers@.parents.contains_key(containers@.floating[i].key));
            assert(containers@.has(root));
        }
        tile.prepare_tile_for_floating();
        if containers.selected_container_key() == Some(root) {
            let end: usize = containers.branch_children_len(root);
            containers.insert_leaf_into_branch(root, end, tile, activate);
        } else {
            containers.insert_window_into_branch(root, tile, activate, wide);
        }
        containers.layout_container_subtree(root);
        if activate {
            self.activate_window(containers, id);
        }
    }

    /// Adds a window to the active group; false if there is none.
    pub fn add_tile_to_active_container(
        &mut self,
        containers: &mut ContainerArena,
        tile: Tile,
        activate: bool,
        wide: bool,
    ) -> (r: bool)
        requires
            old(containers).wf(),
            old(containers)@.expects(tile@.key),
            old(containers)@.next_key < u64::MAX,
        ensures
            final(containers).wf(),
            final(self)@ == old(self)@,
            r == old(containers)@.active_root() is Some,
            final(containers)@ == match old(containers)@.active_root() {
                Some(root) => old(containers)@.tile_joined(root, tile@, activate, wide),
                None => old(containers)@,
            },
            final(containers)@.windows() == if r {
                old(containers)@.windows().insert(tile@.key, tile@.window.id)
            } else {
                old(containers)@.windows()
            },
            (old(containers)@.active_root() matches Some(root) && old(containers)@.is_parent(root))
                ==> forall|k: NodeKey| #[trigger]
                final(containers)@.loose(k) ==> old(containers)@.loose(k),
            old(containers)@.mentions_live() ==> final(containers)@.mentions_live(),
    {
        match self.active_root(containers) {
            Some(root) => {
                self.add_tile_to_container(containers, root, tile, activate, wide);
                true
            },
            None => false,
        }
    }

    /// Adds a window to the group of another one; false if that is not floating.
    pub fn add_tile_to_container_of(
        &mut self,
        containers: &mut ContainerArena,
        id: WindowId,
        tile: Tile,
        activate: bool,
        wide: bool,
    ) -> (r: bool)
        requires
            old(containers).wf(),
            old(containers)@.expects(tile@.key),
            old(containers)@.next_key < u64::MAX,
        ensures
            final(containers).wf(),
            final(self)@ == old(self)@,
            r == old(containers)@.group_of(id) is Some,
            final(containers)@ == match old(containers)@.group_of(id) {
                Some(idx) => old(containers)@.tile_joined(
                    old(containers)@.floating[idx].key,
                    tile@,
                    activate,
                    wide,
                ),
                None => old(containers)@,
            },
            final(containers)@.windows() == if r {
                old(containers)@.windows().insert(tile@.key, tile@.window.id)
            } else {
                old(containers)@.windows()
            },
            (old(containers)@.group_of(id) matches Some(idx) && old(containers)@.is_parent(
                old(containers)@.floating[idx].key,
            )) ==> forall|k: NodeKey| #[trigger]
                final(containers)@.loose(k) ==> old(containers)@.loose(k),
            old(containers)@.mentions_live() ==> final(containers)@.mentions_live(),
    {
        match self.idx_of(containers, id) {
            Some(idx) => {
                let root = containers.floating()[idx].key;
                assert(containers@.floating[idx as int].key == root);
                self.add_tile_to_container(containers, root, tile, activate, wide);
                true
            },
            None => false,
        }
    }

    fn hinted_root(&self, containers: &ContainerArena, root_id: u64) -> (r: Option<NodeKey>)
        requires
            containers.wf(),
        ensures
            r == match containers@.place_of_id(root_id, 0) {
                Some(i) => if containers@.is_view(containers@.floating[i].key) {
                    None
                } else {
                    Some(containers@.floating[i].key)
                },
                None => None,
            },
            r matches Some(root) ==> containers@.is_parent(root),
    {
        let floating = containers.floating();
        let mut i: usize = 0;
        while i < floating.len()
            invariant
                containers.wf(),
                i <= floating@.len(),
                floating@ == containers@.floating,
                containers@.place_of_id(root_id, 0) == containers@.place_of_id(
                    root_id,
                    i as int,
                ),
            decreases floating@.len() - i,
        {
            if floating[i].id == root_id {
                let root = floating[i].key;
                proof {
                    assert(containers@.parents.contains_key(containers@.floating[i as int].key));
                    assert(containers@.has(root));
                }
                return if containers.is_leaf(root) {
                    None
                } else {
                    Some(root)
                };
            }
            i = i + 1;
        }
        None
    }

    /// Puts a window back into its slot in a group.
    #[verifier::spinoff_prover]
    fn restore_tile(
        &mut self,
        containers: &mut ContainerArena,
        root: NodeKey,
        tile: Tile,
        activate: bool,
        info: &InsertParentInfo,
    )
        requires
            old(containers).wf(),
            old(containers)@.expects(tile@.key),
            old(containers)@.is_parent(root),
        ensures
            final(containers).wf(),
            final(self)@ == old(self)@,
            final(containers)@ == old(containers)@.tile_restored(root, tile@, activate, info@),
            final(containers)@.windows() == old(containers)@.windows().insert(
                tile@.key,
                tile@.window.id,
            ),
            forall|k: NodeKey| #[trigger]
                final(containers)@.loose(k) ==> old(containers)@.loose(k),
            old(containers)@.mentions_live() ==> final(containers)@.mentions_live(),
    {
        reveal(Tree::tile_restored);
        let mut tile = tile;
        let id = tile.window.id;
        tile.prepare_tile_for_floating();
        containers.insert_leaf_with_parent_info(root, info, tile, activate);
        containers.layout_container_subtree(root);
        if activate {
            self.activate_window(containers, id);
        }
    }

    /// Adds a window where it was before it left the floating side: in the group it was in, if
    /// that is still there and is a container, else as a group of its own.
    #[verifier::spinoff_prover]
    pub fn add_tile_with_restore_hint(
        &mut self,
        containers: &mut ContainerArena,
        tile: Tile,
        activate: bool,
        geometry: FloatingGeometry,
        output: IntSize,
    )
        requires
            old(containers).wf(),
            old(containers)@.expects(tile@.key),
            old(containers)@.next_floating_id < u64::MAX,
        ensures
            final(containers).wf(),
            final(self)@ == old(self)@,
            ({
                let t = old(containers)@;
                let hintless = TileState { floating_reinsert_hint: None, ..tile@ };
                final(containers)@ == match t.hinted_root(tile@.floating_reinsert_hint) {
                    Some(root) => t.tile_restored(
                        root,
                        hintless,
                        activate,
                        tile@.floating_reinsert_hint->0.info->0,
                    ),
                    None => t.tile_floated(0, hintless, activate, geometry, output),
                }
            }),
            final(containers)@.windows() == old(containers)@.windows().insert(
                tile@.key,
                tile@.window.id,
            ),
            forall|k: NodeKey| #[trigger]
                final(containers)@.loose(k) ==> old(containers)@.loose(k),
            old(containers)@.mentions_live() ==> final(containers)@.mentions_live(),
    {
        let mut tile = tile;
        let ghost whole = tile@;
        let hint = tile.floating_reinsert_hint.take();
        assert(tile@ == (TileState { floating_reinsert_hint: None, ..whole }));
        if let Some(hint) = hint {
            if let Some(info) = hint.info {
                if let Some(root) = self.hinted_root(containers, hint.root_id) {
                    self.restore_tile(containers, root, tile, activate, &info);
                    return;
                }
            }
        }
        self.add_tile(containers, tile, activate, geometry, output);
    }

    /// Floats a tiled subtree, or the whole workspace, on top. `restore` is the window size the
    /// window owning fullscreen is to come back to.
    #[verifier::spinoff_prover]
    pub fn add_subtree(
        &mut self,
        containers: &mut ContainerArena,
        key: NodeKey,
        geometry: FloatingGeometry,
        restore: Option<IntSize>,
        output: IntSize,
        workspace_floated: bool,
    ) -> (r: bool)
        requires
            old(containers).wf(),
            old(containers)@.next_key < u64::MAX,
            old(containers)@.next_floating_id < u64::MAX,
        ensures
            final(containers).wf(),
            final(self)@ == old(self)@,
            (final(containers)@, r) == old(containers)@.subtree_arrived(
                key,
                geometry,
                restore,
                output,
                workspace_floated,
            ),
            final(containers)@.windows() == old(containers)@.windows(),
            forall|k: NodeKey| #[trigger]
                final(containers)@.loose(k) ==> old(containers)@.loose(k),
            old(containers)@.mentions_live() ==> final(containers)@.mentions_live(),
    {
        let owner = containers.fullscreen_key();
        let is_window = containers.is_leaf(key);
        containers.prepare_leaf(key, restore, output);
        let root = if workspace_floated {
            containers.float_whole_workspace(geometry, 0)
        } else {
            let kind = if is_window {
                FloatingRootKind::ImplicitWindowGroup
            } else {
                FloatingRootKind::FloatedContainer
            };
            containers.float_as_group(key, geometry, 0, kind)
        };
        let root = match root {
            Some(root) => root,
            None => {
                return false;
            },
        };
        let ghost placed = containers@;
        containers.set_node_geometry(root, geometry.target);
        let keys = containers.leaf_keys_in_branch(root);
        let done = if is_window {
            Some(key)
        } else {
            None
        };
        let ghost boxed = containers@;
        containers.prepare_floated_tiles(&keys, done, owner, restore, output);
        proof {
            lemma_floated_tiles_stack(boxed, keys@, done, owner, restore, output);
        }
        containers.layout();
        if containers.floating_root_count() > 0 {
            self.bring_up_descendants_of(containers, 0);
        }
        true
    }

    // -----------------------------------------------------------------------------------------
    // Leaving
    // -----------------------------------------------------------------------------------------

    /// Takes a window off the floating side. The tile remembers its size, its place and its
    /// slot in the group.
    pub fn remove_tile(&mut self, containers: &mut ContainerArena, id: WindowId) -> (r: RemovedTile)
        requires
            old(containers).wf(),
            old(containers)@.group_of(id) is Some,
        ensures
            final(containers).wf(),
            final(self)@ == old(self)@.resize_ended(Some(id)),
            ({
                let t = old(containers)@;
                let k = t.floating_window(id)->0;
                &&& r.is_floating
                &&& r.tile@ == t.leaving_tile(k)
                &&& final(containers)@ == t.window_left(k)
            }),
            final(containers)@.windows() == old(containers)@.windows().remove(
                old(containers)@.floating_window(id)->0,
            ),
            forall|k: NodeKey| #[trigger]
                final(containers)@.loose(k) ==> old(containers)@.loose(k),
            old(containers)@.mentions_live() ==> final(containers)@.mentions_live(),
    {
        let ghost t = containers@;
        let ghost k = t.floating_window(id)->0;
        proof {
            lemma_window_found(t, id);
            lemma_floating_linked(t, k);
        }
        let idx: usize = match self.idx_of(containers, id) {
            Some(idx) => idx,
            None => 0,
        };
        let entry = containers.floating()[idx];
        let root = entry.key;
        let info = containers.insert_parent_info_for_window(id);
        let tile = containers.remove_window(id);
        let mut tile = tile.unwrap();
        self.interactive_resize_end(Some(id));
        if containers.window_count_in_branch(root) == 0 && (containers.is_floating_root(root)
            || !containers.holds_node(root)) {
            containers.forget_floating_root(root);
        }
        tile.store_floating_size_for_restore();
        tile.floating_pos = Some(entry.geometry.pos);
        tile.floating_reinsert_hint = Some(ReinsertHint { root_id: entry.id, info });
        RemovedTile { tile, is_floating: true }
    }

    /// Takes the active window off the floating side.
    pub fn remove_active_tile(&mut self, containers: &mut ContainerArena) -> (r: Option<
        RemovedTile,
    >)
        requires
            old(containers).wf(),
        ensures
            final(containers).wf(),
            r is Some <==> old(containers)@.active_group() is Some,
            r is None ==> final(containers)@ == old(containers)@ && final(self)@ == old(self)@,
            r matches Some(removed) ==> {
                let t = old(containers)@;
                let id = t.active_id()->0;
                let k = t.floating_window(id)->0;
                &&& removed.is_floating
                &&& removed.tile@ == t.leaving_tile(k)
                &&& final(containers)@ == t.window_left(k)
                &&& final(self)@ == old(self)@.resize_ended(Some(id))
                &&& final(containers)@.windows() == t.windows().remove(k)
            },
            forall|k: NodeKey| #[trigger]
                final(containers)@.loose(k) ==> old(containers)@.loose(k),
            old(containers)@.mentions_live() ==> final(containers)@.mentions_live(),
    {
        match self.active_window_id(containers) {
            Some(id) => if self.contains(containers, id) {
                Some(self.remove_tile(containers, id))
            } else {
                None
            },
            None => None,
        }
    }

    /// Puts the group of a window back into the tiling.
    pub fn unfloat_container(
        &mut self,
        containers: &mut ContainerArena,
        id: WindowId,
        reference: Option<InactiveTilingReference>,
        as_workspace: bool,
    ) -> (r: bool)
        requires
            old(containers).wf(),
        ensures
            final(containers).wf(),
            ({
                let t = old(containers)@;
                match t.group_of(id) {
                    Some(idx) => {
                        &&& (final(containers)@, r) == t.group_returned(
                            t.floating[idx].key,
                            match reference {
                                Some(reference) => Some(reference.key),
                                None => None,
                            },
                            as_workspace,
                        )
                        &&& final(self)@ == match old(self)@.resize {
                            Some(resize) => if t.group_of(resize.window) == Some(idx) {
                                (Space { resize: None, ..old(self)@ })
                            } else {
                                old(self)@
                            },
                            None => old(self)@,
                        }
                    },
                    None => !r && final(containers)@ == t && final(self)@ == old(self)@,
                }
            }),
            final(containers)@.windows() == old(containers)@.windows(),
            forall|k: NodeKey| #[trigger]
                final(containers)@.loose(k) ==> old(containers)@.loose(k),
            old(containers)@.mentions_live() ==> final(containers)@.mentions_live(),
    {
        let idx: usize = match self.idx_of(containers, id) {
            Some(idx) => idx,
            None => {
                return false;
            },
        };
        let root = containers.floating()[idx].key;
        proof {
            assert(containers@.floating[idx as int].key == root);
            assert(containers@.parents.contains_key(containers@.floating[idx as int].key));
        }
        if let Some(resize) = self.resize_in_progress() {
            if self.idx_of(containers, resize.window) == Some(idx) {
                self.drop_resize();
            }
        }
        let keys = containers.leaf_keys_in_branch(root);
        let ghost t = containers@;
        containers.store_sizes(&keys);
        proof {
            lemma_sizes_stored_stack(t, keys@);
        }
        let changed = if as_workspace {
            containers.unfloat_as_workspace(root)
        } else {
            match reference {
                Some(reference) => containers.unfloat_with_tiling_reference(root, reference),
                None => containers.unfloat_into_workspace(root),
            }
        };
        if !changed {
            return false;
        }
        containers.layout();
        true
    }

    /// Puts one floating window back into the tiling.
    #[verifier::spinoff_prover]
    pub fn unfloat_window(
        &mut self,
        containers: &mut ContainerArena,
        id: WindowId,
        reference: Option<InactiveTilingReference>,
    ) -> (r: bool)
        requires
            old(containers).wf(),
        ensures
            final(containers).wf(),
            (final(containers)@, r) == old(containers)@.window_returned(
                id,
                match reference {
                    Some(reference) => Some(reference.key),
                    None => None,
                },
            ),
            final(self)@ == if r {
                old(self)@.resize_ended(Some(id))
            } else {
                old(self)@
            },
            old(containers)@.mentions_live() ==> final(containers)@.mentions_live(),
    {
        let ghost t = containers@;
        let idx: usize = match self.idx_of(containers, id) {
            Some(idx) => idx,
            None => {
                return false;
            },
        };
        let key = match containers.window_key(id) {
            Some(key) => key,
            None => {
                return false;
            },
        };
        let pos = containers.floating()[idx].geometry.pos;
        proof {
            lemma_window_found(t, id);
        }
        let mut tile = containers.take_tile(key);
        tile.store_floating_size_for_restore();
        tile.floating_pos = Some(pos);
        tile.is_scratchpad = false;
        containers.put_tile(key, tile, Ghost(t));
        if containers.unfloat_node(key, reference).is_none() {
            return false;
        }
        containers.layout();
        self.interactive_resize_end(Some(id));
        true
    }

    // -----------------------------------------------------------------------------------------
    // Fullscreen and resizes
    // -----------------------------------------------------------------------------------------

    fn leave_fullscreen(
        &mut self,
        containers: &mut ContainerArena,
        window: WindowId,
        restored: Point,
    )
        requires
            old(containers).wf(),
        ensures
            final(containers).wf(),
            final(self)@ == old(self)@,
            final(containers)@ == old(containers)@.fullscreen_left(window, restored),
            final(containers)@.windows() == old(containers)@.windows(),
            forall|k: NodeKey| #[trigger]
                final(containers)@.loose(k) ==> old(containers)@.loose(k),
            old(containers)@.mentions_live() ==> final(containers)@.mentions_live(),
    {
        let ghost t = containers@;
        let key = match containers.window_key(window) {
            Some(key) => if containers.is_in_floating_branch(key) {
                Some(key)
            } else {
                None
            },
            None => None,
        };
        if let Some(idx) = self.idx_of(containers, window) {
            let root = containers.floating()[idx].key;
            assert(containers@.floating[idx as int].key == root);
            let before = containers.floating()[idx].geometry;
            let geometry = FloatingGeometry {
                target: Rect { loc: restored, size: before.resize_base_size },
                ..before
            };
            containers.set_floating_geometry(root, geometry);
        }
        if let Some(key) = key {
            proof {
                lemma_window_found(t, window);
            }
            let size = match containers.get_tile(key) {
                Some(tile) => match tile.floating_window_size {
                    Some(size) => size,
                    None => IntSize { w: 0, h: 0 },
                },
                None => IntSize { w: 0, h: 0 },
            };
            containers.ask(key, TileRequest::WindowSize { size, animate: true });
        }
        containers.own_fullscreen(None);
        containers.layout();
    }

    /// Makes a floating window fullscreen, or no longer so. `restored` is where the group whose
    /// window leaves fullscreen stands. Answers whether another window has left fullscreen
    /// for this one: the workspace is then to be arranged, and this to be called again.
    pub fn set_fullscreen(
        &mut self,
        containers: &mut ContainerArena,
        window: WindowId,
        is_fullscreen: bool,
        restored: Point,
    ) -> (r: bool)
        requires
            old(containers).wf(),
        ensures
            final(containers).wf(),
            final(self)@ == old(self)@,
            (final(containers)@, r) == old(containers)@.fullscreen_switched(
                window,
                is_fullscreen,
                restored,
            ),
            final(containers)@.windows() == old(containers)@.windows(),
            forall|k: NodeKey| #[trigger]
                final(containers)@.loose(k) ==> old(containers)@.loose(k),
            old(containers)@.mentions_live() ==> final(containers)@.mentions_live(),
    {
        if self.is_fullscreen(containers, window) {
            if !is_fullscreen {
                self.leave_fullscreen(containers, window, restored);
            }
            return false;
        }
        if !is_fullscreen {
            return false;
        }
        if let Some(previous) = self.fullscreen_window_id(containers) {
            self.leave_fullscreen(containers, previous, restored);
            return true;
        }
        proof {
            lemma_window_found(containers@, window);
        }
        let key = match containers.window_key(window) {
            Some(key) => key,
            None => {
                return false;
            },
        };
        if !containers.is_in_floating_branch(key) {
            return false;
        }
        containers.store_size_of(key);
        containers.ask(key, TileRequest::Fullscreen { animate: true });
        containers.own_fullscreen(Some(key));
        containers.layout();
        false
    }
}

/// A window in a floating group has a parent link.
pub proof fn lemma_floating_linked(t: Tree, k: NodeKey)
    requires
        t.wf(),
        t.has(k),
        t.in_float(k),
    ensures
        t.parents.contains_key(k),
{
    if !t.parents.contains_key(k) {
        crate::tree::lemma_branch(t, k);
        let i = choose|i: int|
            0 <= i < t.floating.len() && #[trigger] t.floating[i].key == t.branch(k);
        assert(t.parents.contains_key(t.floating[i].key));
    }
}

proof fn lemma_floated_tiles_stack(
    t: Tree,
    keys: Seq<NodeKey>,
    done: Option<NodeKey>,
    owner: Option<NodeKey>,
    restore: Option<IntSize>,
    output: IntSize,
)
    ensures
        t.floated_tiles(keys, done, owner, restore, output).floating == t.floating,
    decreases keys.len(),
{
    if keys.len() > 0 {
        lemma_floated_tiles_stack(t, keys.drop_last(), done, owner, restore, output);
    }
}

proof fn lemma_sizes_stored_stack(t: Tree, keys: Seq<NodeKey>)
    ensures
        t.sizes_stored(keys).floating == t.floating,
        t.sizes_stored(keys).root == t.root,
    decreases keys.len(),
{
    if keys.len() > 0 {
        lemma_sizes_stored_stack(t, keys.drop_last());
    }
}

} // verus!
