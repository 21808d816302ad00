//! Split and layout commands: building containers around what a command is aimed at, changing
//! and toggling layouts, and undoing single-child nesting.

use crate::arena::ContainerArena;
use crate::axis::{Layout, NodeKey};
use crate::cache::Caches;
use crate::leafcache::{undecorated, undecorated_pending};
use crate::links::{alike, lemma_fullscreen_moved_keeps, lemma_hoisted};
use crate::node::{ContainerData, Node};
use crate::tree::{
    acyclic, depth, lemma_depth, lemma_floated, lemma_lineage, lemma_unfloated, lemma_unlinked,
    lineage, FloatingGeometry, FloatingRoot, Tree,
};
use crate::walk::{lemma_active_listed, lemma_slot};
use vstd::prelude::*;

verus! {

/// One entry of an explicit toggle cycle.
#[derive(Debug, Clone, Copy, PartialEq, Eq, Structural)]
pub enum LayoutCycleEntry {
    /// Either split; as a destination, the one a bare toggle would arrive at.
    Split,
    /// This layout.
    Layout(Layout),
}

impl LayoutCycleEntry {
    /// Whether the entry stands for a layout.
    pub open spec fn covers(self, layout: Layout) -> bool {
        match self {
            LayoutCycleEntry::Split => layout.is_split(),
            LayoutCycleEntry::Layout(l) => l == layout,
        }
    }

    /// The layout the entry leads to, `split` being where a bare toggle would arrive.
    pub open spec fn destination(self, split: Layout) -> Layout {
        match self {
            LayoutCycleEntry::Split => split,
            LayoutCycleEntry::Layout(l) => l,
        }
    }
}

/// The index of the first entry at or after `i` covering a layout.
pub open spec fn first_covering(cycle: Seq<LayoutCycleEntry>, layout: Layout, i: int) -> Option<
    int,
>
    decreases cycle.len() - i,
{
    if i < 0 || i >= cycle.len() {
        None
    } else if cycle[i].covers(layout) {
        Some(i)
    } else {
        first_covering(cycle, layout, i + 1)
    }
}

/// The first destination other than `current` among `n` entries read from index `at`, going
/// round.
pub open spec fn next_different(
    cycle: Seq<LayoutCycleEntry>,
    current: Layout,
    split: Layout,
    at: int,
    n: nat,
) -> Option<Layout>
    decreases n,
{
    if n == 0 {
        None
    } else if cycle[at % (cycle.len() as int)].destination(split) != current {
        Some(cycle[at % (cycle.len() as int)].destination(split))
    } else {
        next_different(cycle, current, split, at + 1, (n - 1) as nat)
    }
}

/// Where a cycle leads from a layout: to the entry after the first one covering it, or to the
/// first entry; entries that would change nothing are passed over.
pub open spec fn cycled(
    cycle: Seq<LayoutCycleEntry>,
    current: Layout,
    split: Layout,
) -> Option<Layout> {
    let start = match first_covering(cycle, current, 0) {
        Some(i) => (i + 1) % (cycle.len() as int),
        None => 0,
    };
    next_different(cycle, current, split, start, cycle.len())
}

impl Tree {
    // -----------------------------------------------------------------------------------------
    // A lone child taking its container's place
    // -----------------------------------------------------------------------------------------

    /// The tree with the box of a window's node kept as the box of its tile.
    pub open spec fn box_kept(self, k: NodeKey) -> Tree {
        self.with_caches(
            Caches {
                leaves: undecorated(self.caches.leaves, k),
                pending: undecorated_pending(self.caches.pending, k),
                ..self.caches
            },
        )
    }

    /// A container selected or focused hands both to `heir` and `leaf`, and is dropped.
    pub open spec fn bequeathed(self, con: NodeKey, heir: NodeKey, leaf: Option<NodeKey>) -> Tree {
        let a = if self.seat.selected == Some(con) {
            self.with_seat(self.seat.with_selected(Some(heir)))
        } else {
            self
        };
        let b = if a.seat.leaf == Some(con) {
            a.with_seat(a.seat.with_leaf(leaf))
        } else {
            a
        };
        b.dropped(con)
    }

    /// The only child `c` of `con` in the slot of `con`, with its shares and its fullscreen.
    pub open spec fn promoted_child(self, con: NodeKey, c: NodeKey) -> Tree {
        let a = self.hoisted(con, c).with_fractions(
            c,
            self.fractions_of(con)->0.narrowed(),
        ).fullscreen_moved(con, c);
        if a.is_view(c) {
            a.box_kept(c)
        } else {
            a
        }
    }

    /// A container flattened away by `split none`.
    pub open spec fn flattened(self, con: NodeKey, c: NodeKey) -> Tree {
        let a = self.promoted_child(con, c);
        a.bequeathed(con, c, a.leaf_under(c))
    }

    /// The index of a floating group on the stack.
    pub open spec fn stack_index(self, k: NodeKey) -> int {
        choose|i: int| 0 <= i < self.floating.len() && #[trigger] self.floating[i].key == k
    }

    /// The only child of a floating root become the root of the group, which keeps its place
    /// on the stack.
    pub open spec fn handed_down(
        self,
        con: NodeKey,
        c: NodeKey,
        geometry: FloatingGeometry,
    ) -> Tree {
        let i = self.stack_index(con);
        let entry = FloatingRoot { key: c, geometry, ..self.floating[i] };
        let a = self.unlinked(c).unfloated(i).floated(entry, i).fullscreen_moved(con, c);
        a.bequeathed(con, c, a.leaf_under(c))
    }

    /// `split none` along the ancestors of a target, from the container holding it: each one
    /// holding nothing else is flattened, up to the workspace or the floating root. A window
    /// alone in its floating group keeps the group as an implicit one.
    pub open spec fn unsplit_chain(
        self,
        chain: Seq<NodeKey>,
        geometry: FloatingGeometry,
    ) -> (Tree, Option<NodeKey>)
        decreases chain.len(),
    {
        if chain.len() == 0 {
            (self, None)
        } else {
            let con = chain[0];
            let c = self.kids(con)[0];
            let implicit = self.with_node(con, Node { user_created: false, ..self.nodes[con] });
            if self.is_floating(con) {
                if self.is_view(c) {
                    (implicit, Some(con))
                } else {
                    (self.handed_down(con, c, geometry), Some(c))
                }
            } else if chain.len() == 1 {
                if self.is_split(con) && self.is_view(c) {
                    (implicit, Some(con))
                } else {
                    (self, None)
                }
            } else {
                let p = chain[1];
                let t = self.flattened(con, c);
                if p == self.root {
                    (t, Some(self.root))
                } else if t.kids(p).len() != 1 {
                    (t, Some(t.branch(c)))
                } else {
                    t.unsplit_chain(chain.drop_first(), geometry)
                }
            }
        }
    }

    /// `split none` on a target: the tree it leaves, and the root of the branch the target is
    /// in afterwards when it did something.
    pub open spec fn unsplit(self, target: NodeKey, geometry: FloatingGeometry) -> (
        Tree,
        Option<NodeKey>,
    ) {
        if target == self.root || !self.has(target) || self.parent(target) is None || self.kids(
            self.parents[target],
        ).len() != 1 || self.kids(self.parents[target])[0] != target {
            (self, None)
        } else {
            let (t, branch) = self.unsplit_chain(
                lineage(self.parents, self.parents[target]),
                geometry,
            );
            match branch {
                Some(b) => (t.readdressed().pruned(), Some(b)),
                None => (t, None),
            }
        }
    }

    // -----------------------------------------------------------------------------------------
    // Layouts
    // -----------------------------------------------------------------------------------------

    /// The container whose layout a command aimed at `target` changes.
    pub open spec fn layout_holder(self, target: NodeKey) -> Option<NodeKey> {
        if target == self.root || self.is_floating(target) || !self.has(target) {
            None
        } else if self.is_view(target) && self.parent(target) is None {
            Some(target)
        } else {
            self.parent(target)
        }
    }

    /// The one-level flatten a layout command starts with: a lone child alone in its container
    /// takes that container's place, unless this is the workspace's own level.
    #[verifier::opaque]
    pub open spec fn flattened_once(self, target: NodeKey) -> Tree {
        match self.layout_holder(target) {
            Some(con) => match (self.active(con), self.parent(con)) {
                (Some(c), Some(p)) => if self.kids(con).len() == 1 && p != self.root && self.kids(
                    p,
                ).len() == 1 {
                    self.promoted_child(con, c).bequeathed(con, c, Some(c)).readdressed()
                } else {
                    self
                },
                _ => self,
            },
            None => self,
        }
    }

    /// The tree with a layout set on a split as an explicit choice.
    pub open spec fn explicit(self, k: NodeKey, layout: Layout) -> Tree {
        self.with_node(k, Node { layout, user_created: true, ..self.nodes[k] })
    }

    /// The tree with a layout set on a split by a layout command.
    pub open spec fn explicit_commanded(self, k: NodeKey, layout: Layout) -> Tree {
        self.with_node(k, Node { user_created: true, ..self.nodes[k].commanded(layout) })
    }

    /// A layout given to the parent of `k`. The workspace does not take it: a new container
    /// with the layout takes over everything the workspace holds, unless the workspace is laid
    /// out that way already.
    pub open spec fn parent_laid(self, k: NodeKey, layout: Layout) -> (Tree, bool) {
        match self.parent(k) {
            None => if self.is_parent(k) {
                (self.with_node(k, self.nodes[k].with_layout(layout)), true)
            } else {
                (self, false)
            },
            Some(p) => if p == self.root && !self.is_floating(k) {
                let own = self.nodes[self.root].layout;
                if own == layout || self.kids(self.root).len() == 0 {
                    (self, false)
                } else {
                    (
                        self.gathered(self.root, NodeKey { id: self.next_key }, layout, own),
                        true,
                    )
                }
            } else if self.is_split(p) {
                (self.explicit_commanded(p, layout), self.nodes[p].layout != layout)
            } else {
                (self, false)
            },
        }
    }

    /// A layout given to a target after the flatten. The workspace selected takes it itself;
    /// the root of a floating group refuses it.
    #[verifier::opaque]
    pub open spec fn laid(self, layout: Layout, target: NodeKey) -> (Tree, bool) {
        if target == self.root {
            (self.with_node(target, self.nodes[target].commanded(layout)), true)
        } else if !self.has(target) || (self.is_split(target) && self.is_floating(target)) {
            (self, false)
        } else {
            self.parent_laid(target, layout)
        }
    }

    /// `layout` on a target.
    pub open spec fn layout_commanded(self, layout: Layout, target: NodeKey) -> (Tree, bool) {
        self.flattened_once(target).laid(layout, target)
    }

    /// The container a toggle reads its layout from, and that layout.
    pub open spec fn toggle_source(self, target: NodeKey) -> Option<(NodeKey, Layout)> {
        match self.layout_holder(target) {
            Some(k) if self.is_parent(k) => Some((k, self.nodes[k].layout)),
            _ => if self.in_float(target) {
                None
            } else {
                Some((self.root, self.nodes[self.root].layout))
            },
        }
    }

    /// The layout a bare toggle arrives at: the other split; out of tabs or stacks, the split
    /// the container remembers, or else the one along the screen.
    pub open spec fn toggled_split(self, current: Layout, source: Option<NodeKey>) -> Layout {
        match current {
            Layout::SplitH => Layout::SplitV,
            Layout::SplitV => Layout::SplitH,
            _ => {
                let remembered = match source {
                    Some(k) if self.is_parent(k) => self.nodes[k].prev_split_layout,
                    _ => None,
                };
                match remembered {
                    Some(layout) => layout,
                    None => if self.options.view_size.w.less(self.options.view_size.h) {
                        Layout::SplitV
                    } else {
                        Layout::SplitH
                    },
                }
            },
        }
    }

    /// A toggle written back to where it was read from; one read from a branch root is aimed
    /// at the target instead.
    #[verifier::opaque]
    pub open spec fn toggled_to(self, layout: Layout, source: NodeKey, target: NodeKey) -> (
        Tree,
        bool,
    ) {
        if self.parent(source) is Some {
            if self.is_split(source) {
                (self.explicit_commanded(source, layout), true)
            } else {
                (self, false)
            }
        } else {
            self.laid(layout, target)
        }
    }

    /// `layout toggle split` on a target.
    pub open spec fn split_toggled(self, target: NodeKey) -> (Tree, bool) {
        let t = self.flattened_once(target);
        match t.toggle_source(target) {
            Some((source, current)) => t.toggled_to(
                t.toggled_split(current, Some(source)),
                source,
                target,
            ),
            None => (t, false),
        }
    }

    /// `layout toggle all` on a target.
    pub open spec fn layout_toggled(self, target: NodeKey) -> (Tree, bool) {
        let t = self.flattened_once(target);
        match t.toggle_source(target) {
            Some((source, current)) => t.toggled_to(current.cycled(), source, target),
            None => (t, false),
        }
    }

    /// `layout default` on a target: back to the split its container remembers.
    pub open spec fn layout_defaulted(self, target: NodeKey) -> (Tree, bool) {
        let t = self.flattened_once(target);
        match t.toggle_source(target) {
            Some((source, _)) => match t.nodes[source].prev_split_layout {
                Some(layout) => t.toggled_to(layout, source, target),
                None => (t, false),
            },
            None => (t, false),
        }
    }

    /// `layout toggle` with an explicit cycle on a target.
    pub open spec fn layout_cycled(self, target: NodeKey, cycle: Seq<LayoutCycleEntry>) -> (
        Tree,
        bool,
    ) {
        if cycle.len() == 0 {
            (self, false)
        } else {
            let t = self.flattened_once(target);
            match t.toggle_source(target) {
                Some((source, current)) => match cycled(
                    cycle,
                    current,
                    t.toggled_split(current, Some(source)),
                ) {
                    Some(layout) => t.toggled_to(layout, source, target),
                    None => (t, false),
                },
                None => (t, false),
            }
        }
    }

    // -----------------------------------------------------------------------------------------
    // Splits
    // -----------------------------------------------------------------------------------------

    /// A split of the root of a branch: only its layout changes, and it stays selected.
    pub open spec fn root_split(self, k: NodeKey, layout: Layout) -> (Tree, bool) {
        if self.is_split(k) {
            let t = self.explicit(k, layout);
            (t.with_seat(t.seat.with_selected(Some(k))), true)
        } else {
            (self, false)
        }
    }

    /// A container the user asked for.
    pub open spec fn asked_for(layout: Layout) -> Node {
        Node { user_created: true, ..Node::split(layout) }
    }

    /// A split of one window: alone in a split, it only states that container's layout;
    /// otherwise it gets a container of its own.
    #[verifier::opaque]
    pub open spec fn leaf_split(self, k: NodeKey, layout: Layout) -> (Tree, bool) {
        match self.parent(k) {
            None => self.root_split(k, layout),
            Some(p) => if self.nodes[p].layout.is_split() && self.kids(p).len() == 1 {
                if p == self.root {
                    (self.with_node(p, self.nodes[p].with_layout(layout)), true)
                } else {
                    (self.explicit(p, layout), true)
                }
            } else if self.kids(p).contains(k) {
                (
                    self.wrapped(
                        p,
                        k,
                        NodeKey { id: self.next_key },
                        Tree::asked_for(layout),
                    ),
                    true,
                )
            } else {
                (self, false)
            },
        }
    }

    /// A split of a selected container, which stays selected.
    #[verifier::opaque]
    pub open spec fn container_split(self, k: NodeKey, layout: Layout) -> (Tree, bool) {
        if !self.is_split(k) {
            (self, false)
        } else if self.is_floating(k) {
            self.root_split(k, layout)
        } else {
            match self.parent(k) {
                None => (self, false),
                Some(p) => if self.kids(p).len() == 1 && self.nodes[p].layout.is_split() {
                    (self.with_node(p, self.nodes[p].with_layout(layout)), true)
                } else if self.kids(p).contains(k) {
                    let w = self.wrapped(
                        p,
                        k,
                        NodeKey { id: self.next_key },
                        Tree::asked_for(layout),
                    );
                    let t = w.with_seat(w.seat.with_selected(Some(k)));
                    match t.leaf_under(k) {
                        Some(leaf) if t.seat.leaf is None => (
                            t.with_seat(t.seat.with_leaf(Some(leaf))),
                            true,
                        ),
                        _ => (t, true),
                    }
                } else {
                    (self, false)
                },
            }
        }
    }

    /// An empty workspace split: it takes the layout and remembers the former one.
    pub open spec fn blank_split(self, layout: Layout) -> Tree {
        let root = self.nodes[self.root];
        self.with_node(self.root, Node { layout, prev_split_layout: Some(root.layout), ..root })
    }

    /// A split of the workspace: everything it holds goes under a new container with the old
    /// layout, which is left selected.
    #[verifier::opaque]
    pub open spec fn workspace_split(self, layout: Layout) -> Tree {
        if self.kids(self.root).len() == 0 {
            self.blank_split(layout)
        } else {
            let w = NodeKey { id: self.next_key };
            self.gathered(self.root, w, self.nodes[self.root].layout, layout).selecting(w)
        }
    }

    /// `split` on a target.
    #[verifier::opaque]
    pub open spec fn split_commanded(self, layout: Layout, target: NodeKey) -> (Tree, bool) {
        let (t, done) = if target == self.root {
            (self.workspace_split(layout), true)
        } else if self.is_view(target) {
            self.leaf_split(target, layout)
        } else {
            self.container_split(target, layout)
        };
        if done {
            (t.readdressed(), true)
        } else {
            (t, false)
        }
    }
}

/// A split adds to a tree and takes nothing out of it.
#[verifier::spinoff_prover]
pub proof fn lemma_split_keeps(t: Tree, layout: Layout, target: NodeKey, k: NodeKey)
    requires
        t.wf(),
        t.has(k),
    ensures
        t.split_commanded(layout, target).0.has(k),
        t.split_commanded(layout, target).0.root == t.root,
        t.is_parent(k) ==> t.split_commanded(layout, target).0.is_parent(k),
{
    reveal(Tree::container_split);
    reveal(Tree::leaf_split);
    reveal(Tree::workspace_split);
    let w = NodeKey { id: t.next_key };
    let own = Node { geometry: t.box_of(target)->0, ..Tree::asked_for(layout) };
    let placed = t.added(w, own).interposed(target, w).with_fractions(
        w,
        t.fractions_of(target)->0.narrowed(),
    );
    crate::links::lemma_fullscreen_moved_keeps(placed, target, w);
    assert(placed.fullscreen_moved(target, w).has(k) == placed.has(k));
    reveal(Tree::split_commanded);
}

/// A lone child in its container's place: the tree stays well-formed, and the container is
/// left loose and childless.
pub proof fn lemma_promoted_child(t: Tree, con: NodeKey, c: NodeKey)
    requires
        t.wf(),
        t.parents.contains_key(con),
        !t.is_floating(con),
        t.kids(con) == seq![c],
    ensures
        alike(
            t.hoisted(con, c).with_fractions(c, t.fractions_of(con)->0.narrowed()),
            t.hoisted(con, c).with_fractions(
                c,
                t.fractions_of(con)->0.narrowed(),
            ).fullscreen_moved(con, c),
        ),
        t.promoted_child(con, c).has(con),
        con != t.promoted_child(con, c).root,
        t.promoted_child(con, c).root == t.root,
        t.promoted_child(con, c).floating == t.floating,
        !t.promoted_child(con, c).parents.contains_key(con),
        t.promoted_child(con, c).nodes[con].children.len() == 0,
        t.promoted_child(con, c).parents == t.parents.remove(con).insert(c, t.parents[con]),
        t.promoted_child(con, c).seat == t.seat,
{
    reveal(Tree::fullscreen_moved);
    lemma_hoisted(t, con, c);
    lemma_fullscreen_moved_keeps(
        t.hoisted(con, c).with_fractions(c, t.fractions_of(con)->0.narrowed()),
        con,
        c,
    );
}

impl ContainerArena {
    /// Hands selection and focus of a loose childless container to another node and drops it.
    fn bequeath_and_remove(&mut self, container_key: NodeKey, heir: NodeKey, leaf: Option<NodeKey>)
        requires
            old(self).wf(),
            old(self)@.has(container_key),
            container_key != old(self)@.root,
            !old(self)@.parents.contains_key(container_key),
            old(self)@.nodes[container_key].children.len() == 0,
        ensures
            final(self).wf(),
            final(self)@ == old(self)@.bequeathed(container_key, heir, leaf),
            !old(self)@.is_view(container_key) ==> final(self)@.windows() == old(self)@.windows(),
            forall|k: NodeKey| #[trigger]
                final(self)@.loose(k) ==> old(self)@.loose(k) && k != container_key,
            old(self)@.mentions_live() && old(self)@.has(heir) && !old(self)@.is_view(container_key)
                ==> final(self)@.mentions_live(),
    {
        reveal(Tree::mentions_live);
        if self.selected_key() == Some(container_key) {
            self.redirect_selection(Some(heir));
        }
        if self.focused_key() == Some(container_key) {
            self.redirect_focused_leaf(leaf);
        }
        self.remove_node_from_store(container_key);
    }

    /// Puts the only child of a tiled container into the slot of its container.
    fn promote_child(&mut self, container_key: NodeKey, child_key: NodeKey)
        requires
            old(self).wf(),
            old(self)@.parents.contains_key(container_key),
            !old(self)@.is_floating(container_key),
            old(self)@.kids(container_key) == seq![child_key],
        ensures
            final(self).wf(),
            final(self)@ == old(self)@.promoted_child(container_key, child_key),
            final(self)@.windows() == old(self)@.windows(),
            forall|k: NodeKey| #[trigger]
                final(self)@.loose(k) ==> old(self)@.loose(k) || k == container_key,
            old(self)@.mentions_live() ==> final(self)@.mentions_live(),
    {
        let ghost t = self@;
        proof {
            lemma_hoisted(t, container_key, child_key);
            lemma_promoted_child(t, container_key, child_key);
        }
        let parent_key = match self.parent_of(container_key) {
            Some(parent_key) => parent_key,
            None => {
                return;
            },
        };
        let idx: usize = match self.child_index(parent_key, container_key) {
            Some(idx) => idx,
            None => {
                return;
            },
        };
        proof {
            lemma_slot(t, parent_key, container_key, idx as int);
        }
        let fractions = match self.node_fractions(container_key) {
            Some(fractions) => fractions,
            None => {
                return;
            },
        };
        self.detach_child(child_key);
        self.detach_child(container_key);
        self.attach_child(child_key, parent_key, idx);
        self.set_node_fractions(child_key, fractions.narrow());
        self.transfer_fullscreen_to_replacement(container_key, child_key);
        if self.is_leaf(child_key) {
            self.preserve_leaf_node_geometry(child_key);
        }
    }
}

/// What `bequeathed` leaves alone.
pub proof fn lemma_bequeathed(t: Tree, con: NodeKey, heir: NodeKey, leaf: Option<NodeKey>)
    ensures
        t.bequeathed(con, heir, leaf).parents == t.parents.remove(con),
        t.bequeathed(con, heir, leaf).nodes == t.nodes.remove(con),
        t.bequeathed(con, heir, leaf).root == t.root,
        t.bequeathed(con, heir, leaf).floating == t.floating,
{
}

/// The structure of a group handed down: the child is loose before it is floated, and the
/// former root is loose and childless after.
pub proof fn lemma_handed_down(t: Tree, con: NodeKey, c: NodeKey, geometry: FloatingGeometry)
    requires
        t.wf(),
        t.is_floating(con),
        t.kids(con) == seq![c],
    ensures
        0 <= t.stack_index(con) < t.floating.len(),
        t.floating[t.stack_index(con)].key == con,
        t.parents.contains_key(c),
        t.parents[c] == con,
        !t.is_floating(c),
        t.unlinked(c).wf(),
        t.unlinked(c).floating == t.floating,
        t.unlinked(c).unfloated(t.stack_index(con)).wf(),
        t.unlinked(c).unfloated(t.stack_index(con)).has(c),
        c != t.root,
        con != t.root,
        con != c,
        !t.unlinked(c).unfloated(t.stack_index(con)).parents.contains_key(c),
        ({
            let i = t.stack_index(con);
            let entry = FloatingRoot { key: c, geometry, ..t.floating[i] };
            let a = t.unlinked(c).unfloated(i).floated(entry, i);
            &&& a.wf()
            &&& alike(a, a.fullscreen_moved(con, c))
            &&& a.has(con)
            &&& !a.parents.contains_key(con)
            &&& a.nodes[con].children.len() == 0
            &&& a.root == t.root
        }),
{
    let i = t.stack_index(con);
    let w = choose|i: int| 0 <= i < t.floating.len() && #[trigger] t.floating[i].key == con;
    assert(t.floating[w].key == con);
    assert(t.kids(con).len() == 1);
    assert(t.nodes[con].children[0] == c);
    assert(t.parents.contains_key(t.nodes[con].children[0]));
    assert(t.parents[t.floating[i].key] == t.root);
    assert(!t.is_floating(c)) by {
        if t.is_floating(c) {
            let j = choose|j: int| 0 <= j < t.floating.len() && #[trigger] t.floating[j].key == c;
            assert(t.parents[t.floating[j].key] == t.root);
        }
    }
    lemma_depth(t.parents, c);
    lemma_unlinked(t, c);
    let a = t.unlinked(c);
    crate::tree::lemma_without_is_remove(t.nodes[con].children, c);
    assert(a.nodes[con].children =~= Seq::empty()) by {
        assert(seq![c].index_of(c) == 0) by {
            assert(seq![c][seq![c].index_of(c)] == c);
        }
    }
    lemma_unfloated(a, i);
    let b = a.unfloated(i);
    let entry = FloatingRoot { key: c, geometry, ..t.floating[i] };
    lemma_floated(b, entry, i);
    lemma_fullscreen_moved_keeps(b.floated(entry, i), con, c);
}

/// The ancestry of a node follows the parent links to a node without one.
pub proof fn lemma_lineage_links(parents: Map<NodeKey, NodeKey>, k: NodeKey)
    requires
        acyclic(parents),
    ensures
        lineage(parents, k).len() > 0,
        lineage(parents, k)[0] == k,
        forall|j: int|
            0 <= j < lineage(parents, k).len() - 1 ==> parents.contains_key(
                #[trigger] lineage(parents, k)[j],
            ) && parents[lineage(parents, k)[j]] == lineage(parents, k)[j + 1],
        !parents.contains_key(lineage(parents, k).last()),
    decreases depth(parents, k),
{
    let all = lineage(parents, k);
    if parents.contains_key(k) {
        lemma_depth(parents, k);
        lemma_lineage_links(parents, parents[k]);
        let rest = lineage(parents, parents[k]);
        assert(all =~= seq![k] + rest);
        assert forall|j: int| 0 <= j < all.len() - 1 implies parents.contains_key(
            #[trigger] all[j],
        ) && parents[all[j]] == all[j + 1] by {
            if j > 0 {
                assert(all[j] == rest[j - 1]);
                assert(all[j + 1] == rest[j]);
            }
        }
        assert(all.last() == rest.last());
    }
}

/// The structure a flatten leaves behind.
pub proof fn lemma_flattened(t: Tree, con: NodeKey, c: NodeKey)
    requires
        t.wf(),
        t.parents.contains_key(con),
        !t.is_floating(con),
        t.kids(con) == seq![c],
        t.flattened(con, c).wf(),
    ensures
        t.flattened(con, c).root == t.root,
        t.flattened(con, c).parents == t.parents.remove(con).insert(c, t.parents[con]),
        t.flattened(con, c).kids(t.parents[con]).len() == 1 ==> t.flattened(con, c).kids(
            t.parents[con],
        ) == seq![c],
{
    let p = t.parents[con];
    let a = t.promoted_child(con, c);
    let u = t.flattened(con, c);
    lemma_promoted_child(t, con, c);
    lemma_bequeathed(a, con, c, a.leaf_under(c));
    lemma_depth(t.parents, con);
    assert(t.kids(con)[0] == c);
    assert(t.parents.contains_key(t.nodes[con].children[0]));
    assert(c != con);
    assert(u.parents =~= t.parents.remove(con).insert(c, p));
    if u.kids(p).len() == 1 {
        let only = u.kids(p)[0];
        assert(u.parents[u.nodes[p].children[0]] == p);
        assert(u.parents.contains_key(c));
        assert(u.nodes[p].children.contains(c)) by {
            if u.is_floating(c) {
                let i = choose|i: int|
                    0 <= i < u.floating.len() && #[trigger] u.floating[i].key == c;
                assert(t.floating[i].key == c);
                assert(t.parents[t.floating[i].key] == t.root);
                lemma_hoisted(t, con, c);
            }
        }
        assert(u.kids(p) =~= seq![c]);
    }
}

impl ContainerArena {
    /// Flattens a tiled container holding one child.
    fn flatten(&mut self, container_key: NodeKey, child_key: NodeKey)
        requires
            old(self).wf(),
            old(self)@.parents.contains_key(container_key),
            !old(self)@.is_floating(container_key),
            old(self)@.kids(container_key) == seq![child_key],
        ensures
            final(self).wf(),
            final(self)@ == old(self)@.flattened(container_key, child_key),
            final(self)@.windows() == old(self)@.windows(),
            forall|k: NodeKey| #[trigger] final(self)@.loose(k) ==> old(self)@.loose(k),
            old(self)@.mentions_live() ==> final(self)@.mentions_live(),
    {
        reveal(Tree::fullscreen_moved);
        proof {
            lemma_promoted_child(self@, container_key, child_key);
        }
        self.promote_child(container_key, child_key);
        proof {
            assert(old(self)@.kids(container_key).len() == 1);
            assert(old(self)@.is_parent(container_key));
            assert(!old(self)@.is_view(container_key));
            crate::windows::lemma_windows(old(self)@, container_key);
            crate::windows::lemma_windows(self@, container_key);
        }
        let leaf = self.leaf_under_key(child_key);
        self.bequeath_and_remove(container_key, child_key, leaf);
    }

    /// Makes the only child of a floating root the root of the group.
    fn hand_down(&mut self, container_key: NodeKey, child_key: NodeKey, geometry: FloatingGeometry)
        requires
            old(self).wf(),
            old(self)@.is_floating(container_key),
            old(self)@.kids(container_key) == seq![child_key],
        ensures
            final(self).wf(),
            final(self)@ == old(self)@.handed_down(container_key, child_key, geometry),
            final(self)@.windows() == old(self)@.windows(),
            forall|k: NodeKey| #[trigger] final(self)@.loose(k) ==> old(self)@.loose(k),
            old(self)@.mentions_live() ==> final(self)@.mentions_live(),
    {
        let ghost t = self@;
        proof {
            lemma_handed_down(t, container_key, child_key, geometry);
        }
        let idx: usize = match self.floating_root_index(container_key) {
            Some(idx) => idx,
            None => {
                return;
            },
        };
        assert(idx == t.stack_index(container_key)) by {
            let i = t.stack_index(container_key);
            assert(t.floating[i].key == t.floating[idx as int].key);
        }
        self.detach_child(child_key);
        let entry = self.pop_floating(idx);
        self.push_floating(
            FloatingRoot { id: entry.id, key: child_key, kind: entry.kind, geometry },
            idx,
        );
        self.transfer_fullscreen_to_replacement(container_key, child_key);
        let leaf = self.leaf_under_key(child_key);
        self.bequeath_and_remove(container_key, child_key, leaf);
    }

    /// `split none`: flattens the container holding nothing but the target, and each ancestor
    /// that then holds nothing else, up to the workspace. Answers with the root of the branch
    /// the target ends up in. `geometry` is where the target stands should it become the root
    /// of its floating group.
    #[verifier::rlimit(60)]
    #[verifier::spinoff_prover]
    pub fn unsplit_target(&mut self, target_key: NodeKey, geometry: FloatingGeometry) -> (r: Option<
        NodeKey,
    >)
        requires
            old(self).wf(),
        ensures
            final(self).wf(),
            (final(self)@, r) == old(self)@.unsplit(target_key, geometry),
            final(self)@.windows() == old(self)@.windows(),
            forall|k: NodeKey| #[trigger] final(self)@.loose(k) ==> old(self)@.loose(k),
            old(self)@.mentions_live() ==> final(self)@.mentions_live(),
    {
        let ghost start = self@;
        if target_key == self.workspace_root() || !self.holds_node(target_key) {
            return None;
        }
        let first = match self.parent_of(target_key) {
            Some(first) => first,
            None => {
                return None;
            },
        };
        match self.get_container(first) {
            Some(container) => {
                if container.child_count() != 1 || container.child_key(0) != Some(target_key) {
                    return None;
                }
            },
            None => {
                return None;
            },
        }
        let chain = self.focus_chain(first);
        proof {
            lemma_lineage(start.parents, first);
            lemma_lineage_links(start.parents, first);
            crate::tree::lemma_parent_not_under_child(start.parents, target_key);
            assert(!chain@.contains(target_key));
            assert(chain@.skip(0) =~= chain@);
            assert(start.kids(first) =~= seq![target_key]);
        }
        let mut i: usize = 0;
        let mut branch = self.workspace_root();
        loop
            invariant_except_break
                i < chain@.len(),
                self@.kids(chain@[i as int]) == seq![target_key],
                self@.unsplit_chain(chain@.skip(i as int), geometry) == start.unsplit_chain(
                    chain@,
                    geometry,
                ),
                forall|j: int|
                    i <= j < chain@.len() - 1 ==> self@.parents.contains_key(
                        #[trigger] chain@[j],
                    ) && self@.parents[chain@[j]] == chain@[j + 1],
                !self@.parents.contains_key(chain@.last()),
            invariant
                self.wf(),
                forall|k: NodeKey| #[trigger] self@.loose(k) ==> old(self)@.loose(k),
                old(self)@.mentions_live() ==> self@.mentions_live(),
                self@.windows() == old(self)@.windows(),
                start == old(self)@,
                start.unsplit(target_key, geometry) == match start.unsplit_chain(
                    chain@,
                    geometry,
                ).1 {
                    Some(b) => (
                        start.unsplit_chain(chain@, geometry).0.readdressed().pruned(),
                        Some(b),
                    ),
                    None => (start.unsplit_chain(chain@, geometry).0, None),
                },
                chain@.no_duplicates(),
                !chain@.contains(target_key),
                chain@.len() > 0,
            ensures
                (self@, Some(branch)) == start.unsplit_chain(chain@, geometry),
            decreases chain@.len() - i,
        {
            let container_key = chain[i];
            let ghost t = self@;
            let ghost rest = chain@.skip(i as int);
            assert(rest[0] == container_key);
            assert(t.kids(container_key)[0] == target_key);
            if self.is_floating_root(container_key) {
                if self.is_leaf(target_key) {
                    assert(t.is_container(container_key)) by {
                        let j = choose|j: int|
                            0 <= j < t.floating.len() && #[trigger] t.floating[j].key
                                == container_key;
                        assert(t.parents.contains_key(t.floating[j].key));
                    }
                    self.set_user_created_of(container_key, false);
                    branch = container_key;
                    break ;
                }
                self.hand_down(container_key, target_key, geometry);
                branch = target_key;
                break ;
            }
            let count: usize = chain.len();
            if i + 1 == count {
                assert(rest.len() == 1);
                if self.get_real_container(container_key).is_some() && self.is_leaf(target_key) {
                    self.set_user_created_of(container_key, false);
                    branch = container_key;
                    break ;
                }
                return None;
            }
            let parent_key = chain[i + 1];
            proof {
                assert(rest.len() > 1);
                assert(rest[1] == parent_key);
                assert(t.parents[chain@[i as int]] == chain@[i as int + 1]);
            }
            self.flatten(container_key, target_key);
            proof {
                lemma_flattened(t, container_key, target_key);
            }
            if parent_key == self.workspace_root() {
                branch = parent_key;
                break ;
            }
            if self.child_count_of(parent_key) != 1 {
                branch = self.branch_root(target_key);
                break ;
            }
            proof {
                let u = self@;
                assert(rest.drop_first() =~= chain@.skip(i as int + 1));
                assert forall|j: int|
                    i + 1 <= j < chain@.len() - 1 implies u.parents.contains_key(
                    #[trigger] chain@[j],
                ) && u.parents[chain@[j]] == chain@[j + 1] by {
                    assert(chain@[j] != container_key);
                    assert(chain@.contains(chain@[j]));
                }
                assert(chain@.contains(chain@.last()));
                assert(chain@.last() != container_key);
                assert(u.unsplit_chain(chain@.skip(i as int + 1), geometry) == t.unsplit_chain(
                    rest,
                    geometry,
                ));
            }
            i = i + 1;
        }
        self.readdress_leaf_layouts();
        self.prune_focus_order();
        Some(branch)
    }
}

impl ContainerArena {
    // -----------------------------------------------------------------------------------------
    // Layout commands
    // -----------------------------------------------------------------------------------------

    /// The layout of the workspace.
    pub fn root_container_layout(&self) -> (r: Layout)
        requires
            self.wf(),
        ensures
            r == self@.nodes[self@.root].layout,
    {
        match self.get_container(self.workspace_root()) {
            Some(root) => root.layout(),
            None => Layout::SplitH,
        }
    }

    /// The layout of the workspace.
    pub fn workspace_layout(&self) -> (r: Layout)
        requires
            self.wf(),
        ensures
            r == self@.nodes[self@.root].layout,
    {
        self.root_container_layout()
    }

    /// Sets the layout of the root of a branch. Answers whether it lays out children.
    pub fn set_branch_root_layout(&mut self, branch_root: NodeKey, layout: Layout) -> (r: bool)
        requires
            old(self).wf(),
        ensures
            final(self).wf(),
            r == old(self)@.is_parent(branch_root),
            final(self)@ == if r {
                old(self)@.with_node(branch_root, old(self)@.nodes[branch_root].with_layout(layout))
            } else {
                old(self)@
            },
            final(self)@.windows() == old(self)@.windows(),
            forall|k: NodeKey| #[trigger] final(self)@.loose(k) ==> old(self)@.loose(k),
            old(self)@.mentions_live() ==> final(self)@.mentions_live(),
    {
        if self.get_container(branch_root).is_none() {
            return false;
        }
        self.set_layout_of(branch_root, layout);
        true
    }

    /// Sets the layout of the workspace.
    pub fn set_root_container_layout(&mut self, layout: Layout) -> (r: bool)
        requires
            old(self).wf(),
        ensures
            final(self).wf(),
            r,
            final(self)@ == old(self)@.with_node(
                old(self)@.root,
                old(self)@.nodes[old(self)@.root].with_layout(layout),
            ),
            final(self)@.windows() == old(self)@.windows(),
            forall|k: NodeKey| #[trigger] final(self)@.loose(k) ==> old(self)@.loose(k),
            old(self)@.mentions_live() ==> final(self)@.mentions_live(),
    {
        let root = self.workspace_root();
        self.set_branch_root_layout(root, layout)
    }

    /// Sets the layout of the workspace by command.
    pub fn set_root_layout_from_command(&mut self, layout: Layout) -> (r: bool)
        requires
            old(self).wf(),
        ensures
            final(self).wf(),
            r,
            final(self)@ == old(self)@.with_node(
                old(self)@.root,
                old(self)@.nodes[old(self)@.root].commanded(layout),
            ),
            final(self)@.windows() == old(self)@.windows(),
            forall|k: NodeKey| #[trigger] final(self)@.loose(k) ==> old(self)@.loose(k),
            old(self)@.mentions_live() ==> final(self)@.mentions_live(),
    {
        let root = self.workspace_root();
        self.command_layout_of(root, layout);
        true
    }

    /// The container whose layout a command aimed at `target` changes.
    pub fn layout_container_key_for_target(&self, target: NodeKey) -> (r: Option<NodeKey>)
        requires
            self.wf(),
        ensures
            r == self@.layout_holder(target),
    {
        if target == self.workspace_root() || self.branch_is_addressable(target)
            || !self.holds_node(target) {
            return None;
        }
        match self.parent_of(target) {
            Some(parent_key) => Some(parent_key),
            None => if self.is_leaf(target) {
                Some(target)
            } else {
                None
            },
        }
    }

    #[verifier::spinoff_prover]
    fn flatten_layout_parent_once(&mut self, target: NodeKey)
        requires
            old(self).wf(),
        ensures
            final(self).wf(),
            final(self)@ == old(self)@.flattened_once(target),
            final(self)@.windows() == old(self)@.windows(),
            forall|k: NodeKey| #[trigger] final(self)@.loose(k) ==> old(self)@.loose(k),
            old(self)@.mentions_live() ==> final(self)@.mentions_live(),
    {
        reveal(Tree::fullscreen_moved);
        reveal(Tree::flattened_once);
        let ghost t = self@;
        let container_key = match self.layout_container_key_for_target(target) {
            Some(container_key) => container_key,
            None => {
                return;
            },
        };
        let child_key = match self.active_child(container_key) {
            Some(child_key) => child_key,
            None => {
                return;
            },
        };
        let parent_key = match self.parent_of(container_key) {
            Some(parent_key) => parent_key,
            None => {
                return;
            },
        };
        if self.child_count_of(container_key) != 1 || parent_key == self.workspace_root()
            || self.child_count_of(parent_key) != 1 {
            return;
        }
        proof {
            lemma_active_listed(t, container_key);
            assert(t.kids(container_key) =~= seq![child_key]);
            assert(!t.is_floating(container_key)) by {
                if t.is_floating(container_key) {
                    let i = choose|i: int|
                        0 <= i < t.floating.len() && #[trigger] t.floating[i].key
                            == container_key;
                    assert(t.parents[t.floating[i].key] == t.root);
                }
            }
            lemma_promoted_child(t, container_key, child_key);
        }
        self.promote_child(container_key, child_key);
        self.bequeath_and_remove(container_key, child_key, Some(child_key));
        self.readdress_leaf_layouts();
    }

    /// Gives the parent of a node a layout by command. Answers whether that changed anything
    /// to arrange.
    pub fn set_layout_of_parent_of(&mut self, key: NodeKey, layout: Layout) -> (r: bool)
        requires
            old(self).wf(),
            old(self)@.next_key < u64::MAX,
        ensures
            final(self).wf(),
            (final(self)@, r) == old(self)@.parent_laid(key, layout),
            final(self)@.windows() == old(self)@.windows(),
            forall|k: NodeKey| #[trigger] final(self)@.loose(k) ==> old(self)@.loose(k),
            old(self)@.mentions_live() ==> final(self)@.mentions_live(),
    {
        let parent_key = match self.parent_of(key) {
            Some(parent_key) => parent_key,
            None => {
                return self.set_branch_root_layout(key, layout);
            },
        };
        if parent_key == self.workspace_root() && !self.branch_is_addressable(key) {
            let root_layout = self.root_container_layout();
            if root_layout == layout {
                return false;
            }
            return self.wrap_workspace_children(layout, root_layout).is_some();
        }
        let changed = match self.get_real_container(parent_key) {
            Some(container) => container.common.layout() != layout,
            None => {
                return false;
            },
        };
        self.command_explicitly(parent_key, layout);
        changed
    }

    /// Changes the layout of a split by command and marks it as the user's.
    fn command_explicitly(&mut self, key: NodeKey, layout: Layout)
        requires
            old(self).wf(),
            old(self)@.is_split(key),
        ensures
            final(self).wf(),
            final(self)@ == old(self)@.explicit_commanded(key, layout),
            final(self)@.windows() == old(self)@.windows(),
            forall|k: NodeKey| #[trigger] final(self)@.loose(k) ==> old(self)@.loose(k),
            old(self)@.mentions_live() ==> final(self)@.mentions_live(),
    {
        self.command_layout_of(key, layout);
        self.set_user_created_of(key, true);
        assert(self@.nodes =~= old(self)@.explicit_commanded(key, layout).nodes);
    }

    /// Changes the layout of a split and marks it as the user's.
    fn lay_out_explicitly(&mut self, key: NodeKey, layout: Layout)
        requires
            old(self).wf(),
            old(self)@.is_split(key),
        ensures
            final(self).wf(),
            final(self)@ == old(self)@.explicit(key, layout),
            final(self)@.windows() == old(self)@.windows(),
            forall|k: NodeKey| #[trigger] final(self)@.loose(k) ==> old(self)@.loose(k),
            old(self)@.mentions_live() ==> final(self)@.mentions_live(),
    {
        self.set_layout_of(key, layout);
        self.set_user_created_of(key, true);
        assert(self@.nodes =~= old(self)@.explicit(key, layout).nodes);
    }

    /// A layout given to a selected container lands on its parent; the root of a floating
    /// group refuses it.
    pub fn set_layout_for_container_target(&mut self, container_key: NodeKey, layout: Layout) -> (r:
        bool)
        requires
            old(self).wf(),
            old(self)@.next_key < u64::MAX,
        ensures
            final(self).wf(),
            (final(self)@, r) == if old(self)@.is_split(container_key) && !old(self)@.is_floating(
                container_key,
            ) {
                old(self)@.parent_laid(container_key, layout)
            } else {
                (old(self)@, false)
            },
            final(self)@.windows() == old(self)@.windows(),
            forall|k: NodeKey| #[trigger] final(self)@.loose(k) ==> old(self)@.loose(k),
            old(self)@.mentions_live() ==> final(self)@.mentions_live(),
    {
        if self.get_real_container(container_key).is_none() || self.branch_is_addressable(
            container_key,
        ) {
            return false;
        }
        self.set_layout_of_parent_of(container_key, layout)
    }

    fn set_layout_for_prepared_target(&mut self, layout: Layout, target: NodeKey) -> (r: bool)
        requires
            old(self).wf(),
            old(self)@.next_key < u64::MAX,
        ensures
            final(self).wf(),
            (final(self)@, r) == old(self)@.laid(layout, target),
            final(self)@.windows() == old(self)@.windows(),
            forall|k: NodeKey| #[trigger] final(self)@.loose(k) ==> old(self)@.loose(k),
            old(self)@.mentions_live() ==> final(self)@.mentions_live(),
    {
        reveal(Tree::laid);
        if target == self.workspace_root() {
            return self.set_root_layout_from_command(layout);
        }
        if !self.holds_node(target) {
            return false;
        }
        if self.is_leaf(target) {
            self.set_layout_of_parent_of(target, layout)
        } else {
            self.set_layout_for_container_target(target, layout)
        }
    }

    /// `layout` on a target.
    pub fn set_layout_for_target(&mut self, layout: Layout, target: NodeKey) -> (r: bool)
        requires
            old(self).wf(),
            old(self)@.next_key < u64::MAX,
        ensures
            final(self).wf(),
            (final(self)@, r) == old(self)@.layout_commanded(layout, target),
            final(self)@.windows() == old(self)@.windows(),
            forall|k: NodeKey| #[trigger] final(self)@.loose(k) ==> old(self)@.loose(k),
            old(self)@.mentions_live() ==> final(self)@.mentions_live(),
    {
        self.flatten_layout_parent_once(target);
        assert(self@.next_key == old(self)@.next_key) by {
            lemma_flattened_once_numbers(old(self)@, target);
        }
        self.set_layout_for_prepared_target(layout, target)
    }

    /// `layout` on the focused window; an empty workspace takes it itself.
    pub fn set_focused_layout(&mut self, layout: Layout) -> (r: bool)
        requires
            old(self).wf(),
            old(self)@.next_key < u64::MAX,
        ensures
            final(self).wf(),
            (final(self)@, r) == if old(self)@.leaf_under(old(self)@.root) is None {
                (
                    old(self)@.with_node(
                        old(self)@.root,
                        old(self)@.nodes[old(self)@.root].with_layout(layout),
                    ),
                    true,
                )
            } else {
                match old(self)@.effective_focus() {
                    Some(k) => old(self)@.parent_laid(k, layout),
                    None => (old(self)@, false),
                }
            },
            final(self)@.windows() == old(self)@.windows(),
            forall|k: NodeKey| #[trigger] final(self)@.loose(k) ==> old(self)@.loose(k),
            old(self)@.mentions_live() ==> final(self)@.mentions_live(),
    {
        if self.is_empty() {
            return self.set_root_container_layout(layout);
        }
        match self.effective_focused_key() {
            Some(focused_key) => self.set_layout_of_parent_of(focused_key, layout),
            None => false,
        }
    }

    /// The layout of the container holding a node.
    pub fn parent_layout(&self, key: NodeKey) -> (r: Option<Layout>)
        requires
            self.wf(),
        ensures
            r == match self@.parent(key) {
                Some(p) => if self@.is_parent(p) {
                    Some(self@.nodes[p].layout)
                } else {
                    None
                },
                None => None,
            },
    {
        match self.parent_of(key) {
            Some(parent_key) => match self.get_container(parent_key) {
                Some(container) => Some(container.layout()),
                None => None,
            },
            None => None,
        }
    }

    /// The layout of the container that owns a node, or the node's own when it has none above.
    pub fn layout_owning(&self, key: NodeKey) -> (r: Option<Layout>)
        ensures
            r == ({
                let owner = match self@.parent(key) {
                    Some(p) => p,
                    None => key,
                };
                if self@.is_parent(owner) {
                    Some(self@.nodes[owner].layout)
                } else {
                    None
                }
            }),
    {
        let owner = match self.parent_of(key) {
            Some(parent_key) => parent_key,
            None => key,
        };
        match self.get_container(owner) {
            Some(container) => Some(container.layout()),
            None => None,
        }
    }

    /// The layout of the parent of a node, when that is a split the user made holding only it.
    pub fn single_child_split_layout(&self, key: NodeKey) -> (r: Option<Layout>)
        ensures
            r == match self@.parent(key) {
                Some(p) => if self@.is_split(p) && self@.nodes[p].children.len() == 1
                    && self@.nodes[p].user_created && self@.nodes[p].layout.is_split() {
                    Some(self@.nodes[p].layout)
                } else {
                    None
                },
                None => None,
            },
    {
        let parent_key = match self.parent_of(key) {
            Some(parent_key) => parent_key,
            None => {
                return None;
            },
        };
        match self.get_real_container(parent_key) {
            Some(container) => {
                if container.common.child_count() == 1 && container.is_user_container()
                    && container.common.layout().is_split_layout() {
                    Some(container.common.layout())
                } else {
                    None
                }
            },
            None => None,
        }
    }

    /// Whether the container holding a node should take new splits.
    pub fn container_of_allows_splits(&self, key: NodeKey) -> (r: bool)
        ensures
            r == (self@.parent(key) matches Some(p) && self@.is_split(p) && (
            self@.nodes[p].children.len() > 1 || self@.nodes[p].user_created)),
    {
        match self.parent_of(key) {
            Some(parent_key) => match self.get_real_container(parent_key) {
                Some(container) => container.common.child_count() > 1
                    || container.is_user_container(),
                None => false,
            },
            None => false,
        }
    }

    /// Whether the container holding the focused window should take new splits.
    pub fn focused_container_allows_splits(&self) -> (r: bool)
        requires
            self.wf(),
        ensures
            r == (self@.effective_focus() matches Some(k) && self@.parent(k) matches Some(p)
                && self@.is_split(p) && (self@.nodes[p].children.len() > 1
                || self@.nodes[p].user_created)),
    {
        match self.effective_focused_key() {
            Some(focused_key) => self.container_of_allows_splits(focused_key),
            None => false,
        }
    }

    // -----------------------------------------------------------------------------------------
    // Toggles
    // -----------------------------------------------------------------------------------------

    fn toggle_source(&self, target: NodeKey) -> (r: Option<(NodeKey, Layout)>)
        requires
            self.wf(),
        ensures
            r == self@.toggle_source(target),
    {
        if let Some(key) = self.layout_container_key_for_target(target) {
            if let Some(container) = self.get_container(key) {
                return Some((key, container.layout()));
            }
        }
        if self.is_in_floating_branch(target) {
            return None;
        }
        Some((self.workspace_root(), self.root_container_layout()))
    }

    /// The layout a bare toggle arrives at.
    pub fn toggled_split_layout(&self, current: Layout, container_key: Option<NodeKey>) -> (r:
        Layout)
        ensures
            r == self@.toggled_split(current, container_key),
    {
        match current {
            Layout::SplitH => Layout::SplitV,
            Layout::SplitV => Layout::SplitH,
            _ => {
                if let Some(key) = container_key {
                    if let Some(container) = self.get_container(key) {
                        if let Some(layout) = container.prev_split_layout() {
                            return layout;
                        }
                    }
                }
                let view_size = self.options().view_size;
                if view_size.w.is_less(view_size.h) {
                    Layout::SplitV
                } else {
                    Layout::SplitH
                }
            },
        }
    }

    fn apply_toggled_layout(&mut self, layout: Layout, source_key: NodeKey, target: NodeKey) -> (r:
        bool)
        requires
            old(self).wf(),
            old(self)@.next_key < u64::MAX,
        ensures
            final(self).wf(),
            (final(self)@, r) == old(self)@.toggled_to(layout, source_key, target),
            final(self)@.windows() == old(self)@.windows(),
            forall|k: NodeKey| #[trigger] final(self)@.loose(k) ==> old(self)@.loose(k),
            old(self)@.mentions_live() ==> final(self)@.mentions_live(),
    {
        reveal(Tree::toggled_to);
        if self.parent_of(source_key).is_some() {
            if self.get_real_container(source_key).is_none() {
                return false;
            }
            self.command_explicitly(source_key, layout);
            return true;
        }
        self.set_layout_for_prepared_target(layout, target)
    }

    /// `layout toggle split` on a target.
    pub fn toggle_split_for_target(&mut self, target: NodeKey) -> (r: bool)
        requires
            old(self).wf(),
            old(self)@.next_key < u64::MAX,
        ensures
            final(self).wf(),
            (final(self)@, r) == old(self)@.split_toggled(target),
            final(self)@.windows() == old(self)@.windows(),
            forall|k: NodeKey| #[trigger] final(self)@.loose(k) ==> old(self)@.loose(k),
            old(self)@.mentions_live() ==> final(self)@.mentions_live(),
    {
        self.flatten_layout_parent_once(target);
        proof {
            lemma_flattened_once_numbers(old(self)@, target);
        }
        match self.toggle_source(target) {
            Some((source_key, current)) => {
                let next = self.toggled_split_layout(current, Some(source_key));
                self.apply_toggled_layout(next, source_key, target)
            },
            None => false,
        }
    }

    /// `layout toggle split` on the command target of the tiled side.
    pub fn toggle_split_layout(&mut self) -> (r: bool)
        requires
            old(self).wf(),
            old(self)@.next_key < u64::MAX,
        ensures
            final(self).wf(),
            (final(self)@, r) == old(self)@.split_toggled(old(self)@.target_in(old(self)@.root)),
            final(self)@.windows() == old(self)@.windows(),
            forall|k: NodeKey| #[trigger] final(self)@.loose(k) ==> old(self)@.loose(k),
            old(self)@.mentions_live() ==> final(self)@.mentions_live(),
    {
        let target = self.command_target_in(self.workspace_root());
        self.toggle_split_for_target(target)
    }

    /// `layout toggle all` on a target.
    pub fn toggle_layout_all_for_target(&mut self, target: NodeKey) -> (r: bool)
        requires
            old(self).wf(),
            old(self)@.next_key < u64::MAX,
        ensures
            final(self).wf(),
            (final(self)@, r) == old(self)@.layout_toggled(target),
            final(self)@.windows() == old(self)@.windows(),
            forall|k: NodeKey| #[trigger] final(self)@.loose(k) ==> old(self)@.loose(k),
            old(self)@.mentions_live() ==> final(self)@.mentions_live(),
    {
        self.flatten_layout_parent_once(target);
        proof {
            lemma_flattened_once_numbers(old(self)@, target);
        }
        match self.toggle_source(target) {
            Some((source_key, current)) => self.apply_toggled_layout(
                current.next_in_cycle(),
                source_key,
                target,
            ),
            None => false,
        }
    }

    /// `layout default` on a target.
    pub fn set_default_layout_for_target(&mut self, target: NodeKey) -> (r: bool)
        requires
            old(self).wf(),
            old(self)@.next_key < u64::MAX,
        ensures
            final(self).wf(),
            (final(self)@, r) == old(self)@.layout_defaulted(target),
            final(self)@.windows() == old(self)@.windows(),
            forall|k: NodeKey| #[trigger] final(self)@.loose(k) ==> old(self)@.loose(k),
            old(self)@.mentions_live() ==> final(self)@.mentions_live(),
    {
        self.flatten_layout_parent_once(target);
        proof {
            lemma_flattened_once_numbers(old(self)@, target);
        }
        let source_key = match self.toggle_source(target) {
            Some((source_key, _)) => source_key,
            None => {
                return false;
            },
        };
        let layout = match self.get_container(source_key) {
            Some(container) => container.prev_split_layout(),
            None => {
                return false;
            },
        };
        match layout {
            Some(layout) => self.apply_toggled_layout(layout, source_key, target),
            None => false,
        }
    }

    /// `layout toggle` with an explicit cycle on a target.
    pub fn toggle_layout_cycle_for_target(
        &mut self,
        target: NodeKey,
        cycle: &Vec<LayoutCycleEntry>,
    ) -> (r: bool)
        requires
            old(self).wf(),
            old(self)@.next_key < u64::MAX,
        ensures
            final(self).wf(),
            (final(self)@, r) == old(self)@.layout_cycled(target, cycle@),
            final(self)@.windows() == old(self)@.windows(),
            forall|k: NodeKey| #[trigger] final(self)@.loose(k) ==> old(self)@.loose(k),
            old(self)@.mentions_live() ==> final(self)@.mentions_live(),
    {
        if cycle.len() == 0 {
            return false;
        }
        self.flatten_layout_parent_once(target);
        proof {
            lemma_flattened_once_numbers(old(self)@, target);
        }
        let (source_key, current) = match self.toggle_source(target) {
            Some(source) => source,
            None => {
                return false;
            },
        };
        let split = self.toggled_split_layout(current, Some(source_key));
        match next_layout_in(cycle, current, split) {
            Some(layout) => self.apply_toggled_layout(layout, source_key, target),
            None => false,
        }
    }

    // -----------------------------------------------------------------------------------------
    // Split commands
    // -----------------------------------------------------------------------------------------

    /// Splits the root of a branch, which stays selected.
    pub fn split_branch_root(&mut self, branch_root: NodeKey, layout: Layout) -> (r: bool)
        requires
            old(self).wf(),
        ensures
            final(self).wf(),
            (final(self)@, r) == old(self)@.root_split(branch_root, layout),
            final(self)@.windows() == old(self)@.windows(),
            forall|k: NodeKey| #[trigger] final(self)@.loose(k) ==> old(self)@.loose(k),
            old(self)@.mentions_live() ==> final(self)@.mentions_live(),
    {
        if self.get_real_container(branch_root).is_none() {
            return false;
        }
        self.lay_out_explicitly(branch_root, layout);
        self.redirect_selection(Some(branch_root));
        true
    }

    /// Splits one window.
    pub fn split_leaf(&mut self, key: NodeKey, layout: Layout) -> (r: bool)
        requires
            old(self).wf(),
            old(self)@.next_key < u64::MAX,
        ensures
            final(self).wf(),
            (final(self)@, r) == old(self)@.leaf_split(key, layout),
            final(self)@.windows() == old(self)@.windows(),
            forall|k: NodeKey| #[trigger] final(self)@.loose(k) ==> old(self)@.loose(k),
            old(self)@.mentions_live() ==> final(self)@.mentions_live(),
    {
        reveal(Tree::leaf_split);
        let parent_key = match self.parent_of(key) {
            Some(parent_key) => parent_key,
            None => {
                return self.split_branch_root(key, layout);
            },
        };
        let lone = match self.get_container(parent_key) {
            Some(parent) => parent.layout().is_split_layout() && parent.child_count() == 1,
            None => {
                proof {
                    lemma_parents_lay_out(self@, key);
                }
                return false;
            },
        };
        if lone {
            if parent_key == self.workspace_root() {
                self.set_layout_of(parent_key, layout);
            } else {
                self.lay_out_explicitly(parent_key, layout);
            }
            return true;
        }
        let mut wrapper = ContainerData::new(layout);
        wrapper.mark_user_created();
        self.wrap_child_in_new_container(parent_key, key, wrapper).is_some()
    }

    /// Splits a selected container.
    #[verifier::spinoff_prover]
    pub fn split_selected_container(&mut self, selected_key: NodeKey, layout: Layout) -> (r: bool)
        requires
            old(self).wf(),
            old(self)@.next_key < u64::MAX,
        ensures
            final(self).wf(),
            (final(self)@, r) == old(self)@.container_split(selected_key, layout),
            final(self)@.windows() == old(self)@.windows(),
            forall|k: NodeKey| #[trigger] final(self)@.loose(k) ==> old(self)@.loose(k),
            old(self)@.mentions_live() ==> final(self)@.mentions_live(),
    {
        reveal(Tree::fullscreen_moved);
        reveal(Tree::container_split);
        if self.get_real_container(selected_key).is_none() {
            return false;
        }
        if self.branch_is_addressable(selected_key) {
            return self.split_branch_root(selected_key, layout);
        }
        let parent_key = match self.parent_of(selected_key) {
            Some(parent_key) => parent_key,
            None => {
                return false;
            },
        };
        let lone = match self.get_container(parent_key) {
            Some(parent) => parent.layout().is_split_layout() && parent.child_count() == 1,
            None => {
                proof {
                    lemma_parents_lay_out(self@, selected_key);
                }
                return false;
            },
        };
        if lone {
            self.set_layout_of(parent_key, layout);
            return true;
        }
        let mut wrapper = ContainerData::new(layout);
        wrapper.mark_user_created();
        if self.wrap_child_in_new_container(parent_key, selected_key, wrapper).is_none() {
            return false;
        }
        self.redirect_selection(Some(selected_key));
        if self.focused_key().is_none() {
            if let Some(leaf_key) = self.leaf_under_key(selected_key) {
                self.redirect_focused_leaf(Some(leaf_key));
            }
        }
        true
    }

    /// Splits an empty workspace.
    fn split_blank_workspace(&mut self, layout: Layout)
        requires
            old(self).wf(),
        ensures
            final(self).wf(),
            final(self)@ == old(self)@.blank_split(layout),
            final(self)@.windows() == old(self)@.windows(),
            forall|k: NodeKey| #[trigger] final(self)@.loose(k) ==> old(self)@.loose(k),
            old(self)@.mentions_live() ==> final(self)@.mentions_live(),
    {
        let root = self.workspace_root();
        let previous = self.root_container_layout();
        self.set_prev_split_layout_of(root, Some(previous));
        self.set_layout_of(root, layout);
        assert(self@.nodes =~= old(self)@.blank_split(layout).nodes);
    }

    /// Splits the workspace itself.
    pub fn split_workspace_container(&mut self, layout: Layout) -> (r: bool)
        requires
            old(self).wf(),
            old(self)@.next_key < u64::MAX,
        ensures
            final(self).wf(),
            r,
            final(self)@ == old(self)@.workspace_split(layout),
            final(self)@.windows() == old(self)@.windows(),
            forall|k: NodeKey| #[trigger] final(self)@.loose(k) ==> old(self)@.loose(k),
            old(self)@.mentions_live() ==> final(self)@.mentions_live(),
    {
        reveal(Tree::workspace_split);
        if self.child_count_of(self.workspace_root()) == 0 {
            self.split_blank_workspace(layout);
            return true;
        }
        let previous = self.root_container_layout();
        if let Some(wrapper_key) = self.wrap_workspace_children(previous, layout) {
            proof {
                crate::movement::lemma_gathered(
                    old(self)@,
                    old(self)@.root,
                    wrapper_key,
                    previous,
                    layout,
                );
            }
            self.select_container(wrapper_key);
        }
        true
    }

    /// `split` on a target.
    pub fn split_target(&mut self, layout: Layout, target: NodeKey) -> (r: bool)
        requires
            old(self).wf(),
            old(self)@.next_key < u64::MAX,
        ensures
            final(self).wf(),
            (final(self)@, r) == old(self)@.split_commanded(layout, target),
            final(self)@.windows() == old(self)@.windows(),
            forall|k: NodeKey| #[trigger] final(self)@.loose(k) ==> old(self)@.loose(k),
            old(self)@.mentions_live() ==> final(self)@.mentions_live(),
    {
        reveal(Tree::split_commanded);
        let changed = if target == self.workspace_root() {
            self.split_workspace_container(layout)
        } else if self.is_leaf(target) {
            self.split_leaf(target, layout)
        } else {
            self.split_selected_container(target, layout)
        };
        if changed {
            self.readdress_leaf_layouts();
        }
        changed
    }

    /// `split` on the focused window. An empty workspace only takes the layout.
    pub fn split_focused(&mut self, layout: Layout) -> (r: bool)
        requires
            old(self).wf(),
            old(self)@.next_key < u64::MAX,
        ensures
            final(self).wf(),
            (final(self)@, r) == if old(self)@.leaf_under(old(self)@.root) is None {
                (old(self)@.blank_split(layout), true)
            } else {
                match old(self)@.effective_focus() {
                    Some(k) => old(self)@.leaf_split(k, layout),
                    None => (old(self)@, false),
                }
            },
            final(self)@.windows() == old(self)@.windows(),
            forall|k: NodeKey| #[trigger] final(self)@.loose(k) ==> old(self)@.loose(k),
            old(self)@.mentions_live() ==> final(self)@.mentions_live(),
    {
        if self.is_empty() {
            self.split_blank_workspace(layout);
            return true;
        }
        match self.effective_focused_key() {
            Some(focused_key) => self.split_leaf(focused_key, layout),
            None => false,
        }
    }
}

/// A node with a parent has one that lays out children.
pub proof fn lemma_parents_lay_out(t: Tree, k: NodeKey)
    requires
        t.wf(),
        t.parents.contains_key(k),
    ensures
        t.is_parent(t.parents[k]),
{
    let p = t.parents[k];
    if p != t.root {
        assert(t.nodes[p].children.contains(k));
        assert(t.nodes.contains_key(p));
    }
}

/// The flatten of a layout command hands out no identity.
#[verifier::spinoff_prover]
pub proof fn lemma_flattened_once_numbers(t: Tree, target: NodeKey)
    ensures
        t.flattened_once(target).next_key == t.next_key,
{
    reveal(Tree::flattened_once);
    if let Some(con) = t.layout_holder(target) {
        if let Some(c) = t.active(con) {
            crate::links::lemma_fullscreen_moved_keeps(
                t.hoisted(con, c).with_fractions(c, t.fractions_of(con)->0.narrowed()),
                con,
                c,
            );
        }
    }
}

/// Where a cycle leads from a layout.
fn next_layout_in(cycle: &Vec<LayoutCycleEntry>, current: Layout, split: Layout) -> (r: Option<
    Layout,
>)
    requires
        cycle@.len() > 0,
    ensures
        r == cycled(cycle@, current, split),
{
    let n: usize = cycle.len();
    let mut start: usize = 0;
    let mut i: usize = 0;
    while i < n
        invariant_except_break
            start == 0,
            first_covering(cycle@, current, 0) == first_covering(cycle@, current, i as int),
        invariant
            i <= n,
            n == cycle@.len(),
            start < n,
        ensures
            start == match first_covering(cycle@, current, 0) {
                Some(i) => (i + 1) % (cycle@.len() as int),
                None => 0,
            },
        decreases n - i,
    {
        let covered = match cycle[i] {
            LayoutCycleEntry::Split => current.is_split_layout(),
            LayoutCycleEntry::Layout(layout) => layout == current,
        };
        if covered {
            start = if i + 1 == n {
                0
            } else {
                i + 1
            };
            proof {
                if i + 1 < n {
                    vstd::arithmetic::div_mod::lemma_small_mod((i + 1) as nat, n as nat);
                } else {
                    vstd::arithmetic::div_mod::lemma_mod_self_0(n as int);
                }
            }
            break ;
        }
        i = i + 1;
    }
    let mut at: usize = start;
    let mut seen: usize = 0;
    proof {
        vstd::arithmetic::div_mod::lemma_small_mod(start as nat, n as nat);
    }
    while seen < n
        invariant
            n == cycle@.len(),
            seen <= n,
            at < n,
            start < n,
            at == (start + seen) as int % n as int,
            start == match first_covering(cycle@, current, 0) {
                Some(i) => (i + 1) % (cycle@.len() as int),
                None => 0,
            },
            next_different(cycle@, current, split, start as int, n as nat) == next_different(
                cycle@,
                current,
                split,
                start + seen,
                (n - seen) as nat,
            ),
        decreases n - seen,
    {
        let next = match cycle[at] {
            LayoutCycleEntry::Split => split,
            LayoutCycleEntry::Layout(layout) => layout,
        };
        if next != current {
            return Some(next);
        }
        proof {
            let k = (start + seen) as int;
            if at + 1 < n {
                vstd::arithmetic::div_mod::lemma_fundamental_div_mod(k, n as int);
                vstd::arithmetic::div_mod::lemma_fundamental_div_mod_converse(
                    k + 1,
                    n as int,
                    k / n as int,
                    at + 1,
                );
            } else {
                vstd::arithmetic::div_mod::lemma_fundamental_div_mod(k, n as int);
                assert(n as int * (k / n as int) + n == n as int * (k / n as int + 1))
                    by (nonlinear_arith);
                vstd::arithmetic::div_mod::lemma_fundamental_div_mod_converse(
                    k + 1,
                    n as int,
                    k / n as int + 1,
                    0,
                );
            }
        }
        at = if at + 1 == n {
            0
        } else {
            at + 1
        };
        seen = seen + 1;
    }
    None
}

} // verus!
