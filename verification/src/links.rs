//! Shares, fullscreen ownership, and the slot changes built from elementary ones: wrapping a
//! child in a new container and putting a lone child in its container's place.

use crate::arena::ContainerArena;
use crate::axis::{Layout, NodeKey};
use crate::measure::{ChildFractions, NodeSizing, Real, Rect};
use crate::node::{ContainerData, Node};
use crate::tile::TileRequest;
use crate::tree::{
    acyclic, depth, lemma_acyclic_insert, lemma_acyclic_remove, lemma_added, lemma_childless,
    lemma_depth, lemma_linked_at, lemma_parent_not_under_child, lemma_raw_focused, lemma_ranks_fit,
    lemma_relinked, lemma_under_depth, lemma_unlinked, ranked, ranks, relinked, under, Tree,
};
use vstd::prelude::*;

verus! {

// ---------------------------------------------------------------------------------------------
// What a link more or less does to ancestry
// ---------------------------------------------------------------------------------------------

/// With one link less nothing new is above anything.
pub proof fn lemma_under_remove(
    parents: Map<NodeKey, NodeKey>,
    c: NodeKey,
    x: NodeKey,
    top: NodeKey,
)
    requires
        acyclic(parents),
        under(parents.remove(c), x, top),
    ensures
        acyclic(parents.remove(c)),
        under(parents, x, top),
    decreases depth(parents, x),
{
    lemma_acyclic_remove(parents, c);
    if x != top {
        assert(parents.remove(c).contains_key(x));
        lemma_depth(parents, x);
        lemma_under_remove(parents, c, parents[x], top);
    }
}

/// With one link more, what is above a node was above it before or is reached over the link.
pub proof fn lemma_under_insert(
    parents: Map<NodeKey, NodeKey>,
    c: NodeKey,
    q: NodeKey,
    x: NodeKey,
    top: NodeKey,
)
    requires
        acyclic(parents),
        !parents.contains_key(c),
        acyclic(parents.insert(c, q)),
        under(parents.insert(c, q), x, top),
    ensures
        under(parents, x, top) || (under(parents, x, c) && under(parents.insert(c, q), q, top)),
    decreases depth(parents.insert(c, q), x),
{
    let more = parents.insert(c, q);
    if x != top {
        assert(more.contains_key(x));
        lemma_depth(more, x);
        if x == c {
            assert(under(parents, c, c));
        } else {
            lemma_under_insert(parents, c, q, more[x], top);
            assert(parents.contains_key(x));
            assert(parents[x] == more[x]);
        }
    }
}

/// What was above a node stays above it when a link is added elsewhere.
pub proof fn lemma_under_insert_keeps(
    parents: Map<NodeKey, NodeKey>,
    c: NodeKey,
    q: NodeKey,
    x: NodeKey,
    top: NodeKey,
)
    requires
        acyclic(parents),
        !parents.contains_key(c),
        acyclic(parents.insert(c, q)),
        under(parents, x, top),
    ensures
        under(parents.insert(c, q), x, top),
    decreases depth(parents, x),
{
    let more = parents.insert(c, q);
    if x != top {
        assert(parents.contains_key(x));
        lemma_depth(parents, x);
        lemma_under_insert_keeps(parents, c, q, parents[x], top);
        assert(more.contains_key(x));
        assert(more[x] == parents[x]);
    }
}

impl Tree {
    // -----------------------------------------------------------------------------------------
    // Shares and fullscreen
    // -----------------------------------------------------------------------------------------

    pub open spec fn sizing_of(self, k: NodeKey) -> Option<NodeSizing> {
        if self.is_container(k) {
            Some(self.nodes[k].own_sizing())
        } else {
            None
        }
    }

    pub open spec fn with_sizing(self, k: NodeKey, sizing: NodeSizing) -> Tree {
        if self.is_container(k) {
            self.with_node(k, self.nodes[k].with_own_sizing(sizing))
        } else {
            self
        }
    }

    pub open spec fn fractions_of(self, k: NodeKey) -> Option<ChildFractions> {
        match self.sizing_of(k) {
            Some(sizing) => Some(sizing.fractions),
            None => None,
        }
    }

    pub open spec fn with_fractions(self, k: NodeKey, fractions: ChildFractions) -> Tree {
        if self.is_container(k) {
            self.with_sizing(k, self.nodes[k].own_sizing().with_fractions(fractions))
        } else {
            self
        }
    }

    pub open spec fn unset(self, k: NodeKey) -> Tree {
        self.with_fractions(k, ChildFractions::spec_unset())
    }

    /// The tree with the box saved on entry to fullscreen set or cleared on a node.
    pub open spec fn with_restore(self, k: NodeKey, restore: Option<Rect>) -> Tree {
        if self.is_container(k) {
            self.with_sizing(
                k,
                NodeSizing {
                    fullscreen_restore_geometry: restore,
                    ..self.nodes[k].own_sizing()
                },
            )
        } else {
            self
        }
    }

    /// The tree with something asked of a window, if `k` is one.
    pub open spec fn asked(self, k: NodeKey, request: TileRequest) -> Tree {
        if self.is_view(k) {
            self.with_node(
                k,
                Node { tile: Some(self.nodes[k].tile->0.asked(request)), ..self.nodes[k] },
            )
        } else {
            self
        }
    }

    /// The tree with fullscreen handed from one node to its replacement, if the node owns it.
    /// The client state follows the windows: the one that loses fullscreen is asked for the
    /// working area, the one that gains it to fill the output.
    #[verifier::opaque]
    pub open spec fn fullscreen_moved(self, from: NodeKey, to: NodeKey) -> Tree {
        if self.fullscreen != Some(from) {
            self
        } else {
            let animate = !self.options.animations_off;
            let restore = match self.box_of(to) {
                Some(rect) => rect,
                None => Rect::spec_zero(),
            };
            self.asked(
                from,
                TileRequest::TileSize { tile_size: self.options.working_area.size, animate },
            ).asked(to, TileRequest::Fullscreen { animate }).with_restore(
                from,
                None,
            ).with_restore(to, Some(restore)).with_fullscreen(Some(to))
        }
    }

    // -----------------------------------------------------------------------------------------
    // Slots
    // -----------------------------------------------------------------------------------------

    /// The structure of a wrap: `w` takes the slot of `c`, and `c` becomes its only child.
    pub open spec fn interposed(self, c: NodeKey, w: NodeKey) -> Tree {
        let p = self.parents[c];
        self.unlinked(c).linked_at(w, p, self.kids(p).index_of(c)).linked_at(c, w, 0)
    }

    /// A child of `p` put inside a new container in its own slot. The container takes over the
    /// child's box, its shares in single precision, and fullscreen if the child owns it; a
    /// focused child has the container and then itself brought to the front of the order.
    pub open spec fn wrapped(self, p: NodeKey, c: NodeKey, w: NodeKey, node: Node) -> Tree {
        let named = self.added(w, Node { geometry: self.box_of(c)->0, ..node });
        let placed = named.interposed(c, w).with_fractions(
            w,
            self.fractions_of(c)->0.narrowed(),
        ).fullscreen_moved(c, w);
        if self.seat.node() == Some(c) {
            placed.with_seat(placed.seat.raw_focus(w).raw_focus(c))
        } else {
            placed
        }
    }

    /// The structure of a hoist: the only child `c` of `con` takes the slot of `con`, which is
    /// left loose and childless.
    pub open spec fn hoisted(self, con: NodeKey, c: NodeKey) -> Tree {
        let p = self.parents[con];
        let idx = self.kids(p).index_of(con);
        self.unlinked(c).unlinked(con).linked_at(c, p, idx)
    }
}

/// A slot change keeps the tree well-formed: interposing a fresh container above a child.
pub proof fn lemma_interposed(t: Tree, c: NodeKey, w: NodeKey)
    requires
        t.wf(),
        t.parents.contains_key(c),
        !t.is_floating(c),
        t.is_split(w),
        !t.parents.contains_key(w),
        t.nodes[w].children.len() == 0,
        w != t.root,
    ensures
        t.interposed(c, w).wf(),
        t.unlinked(c).wf(),
        t.unlinked(c).linked_at(w, t.parents[c], t.kids(t.parents[c]).index_of(c)).wf(),
        !t.unlinked(c).under(t.parents[c], w),
        !t.unlinked(c).linked_at(w, t.parents[c], t.kids(t.parents[c]).index_of(c)).under(w, c),
        t.kids(t.parents[c]).contains(c),
        t.is_parent(t.parents[c]),
        0 <= t.kids(t.parents[c]).index_of(c) < t.kids(t.parents[c]).len(),
        t.interposed(c, w).nodes[w].children == seq![c],
        t.interposed(c, w).parents == t.parents.insert(c, w).insert(w, t.parents[c]),
{
    let p = t.parents[c];
    lemma_unlinked(t, c);
    let a = t.unlinked(c);
    let kids = t.nodes[p].children;
    crate::tree::lemma_without_is_remove(kids, c);
    assert(forall|x: NodeKey| #[trigger] t.parents.contains_key(x) ==> t.parents[x] != w) by {
        assert forall|x: NodeKey| #[trigger] t.parents.contains_key(x) implies t.parents[x]
            != w by {
            if t.parents[x] == w {
                assert(t.nodes[w].children.contains(x));
            }
        }
    }
    assert(forall|x: NodeKey| #[trigger] a.parents.contains_key(x) ==> a.parents[x] != w);
    if a.under(p, w) {
        lemma_childless(a.parents, p, w);
        assert(t.nodes[w].children.contains(c));
    }
    assert(p != w) by {
        if p == w {
            assert(t.nodes[w].children.contains(c));
        }
    }
    let idx = t.kids(p).index_of(c);
    lemma_linked_at(a, w, p, idx);
    let b = a.linked_at(w, p, idx);
    lemma_acyclic_insert(a.parents, w, p);
    if b.under(w, c) {
        assert(w != c);
        assert(b.under(p, c));
        lemma_under_insert(a.parents, w, p, p, c);
        if under(a.parents, p, c) {
            lemma_under_remove(t.parents, c, p, c);
            lemma_parent_not_under_child(t.parents, c);
        } else {
            lemma_childless(a.parents, p, w);
        }
    }
    assert(b.nodes[w].children =~= Seq::empty());
    lemma_linked_at(b, c, w, 0);
    assert(t.interposed(c, w).nodes[w].children =~= seq![c]);
    assert(t.interposed(c, w).parents =~= t.parents.insert(c, w).insert(w, p));
}

/// Putting a lone child in its container's slot keeps the tree well-formed.
pub proof fn lemma_hoisted(t: Tree, con: NodeKey, c: NodeKey)
    requires
        t.wf(),
        t.parents.contains_key(con),
        !t.is_floating(con),
        t.kids(con) == seq![c],
    ensures
        t.hoisted(con, c).wf(),
        t.unlinked(c).wf(),
        t.unlinked(c).unlinked(con).wf(),
        t.parents.contains_key(c),
        t.parents[c] == con,
        !t.is_floating(c),
        t.unlinked(c).parents.contains_key(con),
        !t.unlinked(c).is_floating(con),
        t.unlinked(c).unlinked(con).is_parent(t.parents[con]),
        !t.unlinked(c).unlinked(con).under(t.parents[con], c),
        !t.hoisted(con, c).parents.contains_key(con),
        t.hoisted(con, c).nodes[con].children.len() == 0,
        t.hoisted(con, c).has(con),
        con != t.root,
        con != c,
        t.kids(t.parents[con]).contains(con),
        t.hoisted(con, c).parents == t.parents.remove(con).insert(c, t.parents[con]),
        t.hoisted(con, c).nodes[t.parents[con]].children == t.nodes[t.parents[con]].children.update(
            t.kids(t.parents[con]).index_of(con),
            c,
        ),
        t.is_split(con),
{
    let p = t.parents[con];
    assert(t.kids(con).len() == 1);
    assert(t.nodes[con].children[0] == c);
    assert(t.parents.contains_key(c) && t.parents[c] == con);
    assert(con != t.root);
    assert(!t.is_floating(c)) by {
        if t.is_floating(c) {
            let i = choose|i: int| 0 <= i < t.floating.len() && #[trigger] t.floating[i].key == c;
            assert(t.parents[t.floating[i].key] == t.root);
        }
    }
    lemma_depth(t.parents, c);
    lemma_depth(t.parents, con);
    lemma_unlinked(t, c);
    let a = t.unlinked(c);
    assert(!a.is_floating(con)) by {
        if a.is_floating(con) {
            let i = choose|i: int| 0 <= i < a.floating.len() && #[trigger] a.floating[i].key
                == con;
            assert(t.floating[i].key == con);
        }
    }
    assert(a.parents.contains_key(con));
    lemma_unlinked(a, con);
    let b = a.unlinked(con);
    assert(p != con);
    assert(a.nodes[con].children =~= Seq::empty()) by {
        crate::tree::lemma_without_is_remove(t.nodes[con].children, c);
        assert(seq![c].index_of(c) == 0) by {
            assert(seq![c][seq![c].index_of(c)] == c);
        }
    }
    let kids = t.nodes[p].children;
    assert(a.nodes[p].children == kids);
    assert(kids.no_duplicates());
    assert(kids.contains(con));
    crate::tree::lemma_without_is_remove(kids, con);
    let idx = t.kids(p).index_of(con);
    if b.under(p, c) {
        lemma_under_remove(a.parents, con, p, c);
        lemma_under_remove(t.parents, c, p, c);
        lemma_under_depth(t.parents, p, c);
    }
    lemma_linked_at(b, c, p, idx);
    let d = t.hoisted(con, c);
    assert(b.nodes[p].children == kids.remove(idx));
    assert(d.nodes[p].children =~= kids.update(idx, c));
    assert(d.parents =~= t.parents.remove(con).insert(c, p));
    assert(t.nodes[con].children.len() == 1);
}

impl ContainerArena {
    /// The size state of a container.
    pub fn node_sizing(&self, key: NodeKey) -> (r: Option<NodeSizing>)
        ensures
            r == self@.sizing_of(key),
    {
        match self.get_any_container(key) {
            Some(container) => Some(container.sizing()),
            None => None,
        }
    }

    pub(crate) fn set_node_sizing(&mut self, key: NodeKey, sizing: NodeSizing) -> (r: bool)
        ensures
            r == old(self)@.is_container(key),
            final(self)@ == old(self)@.with_sizing(key, sizing),
            old(self).wf() ==> final(self).wf(),
            final(self)@.windows() == old(self)@.windows(),
            forall|k: NodeKey| #[trigger] final(self)@.loose(k) ==> old(self)@.loose(k),
            old(self)@.mentions_live() ==> final(self)@.mentions_live(),
    {
        reveal(Tree::mentions_live);
        if self.get_any_container(key).is_none() {
            return false;
        }
        self.set_sizing_of(key, sizing);
        true
    }

    /// Both shares of a node.
    pub fn node_fractions(&self, key: NodeKey) -> (r: Option<ChildFractions>)
        ensures
            r == self@.fractions_of(key),
    {
        match self.node_sizing(key) {
            Some(sizing) => Some(sizing.fractions),
            None => None,
        }
    }

    pub fn set_node_fractions(&mut self, key: NodeKey, fractions: ChildFractions) -> (r: bool)
        ensures
            r == old(self)@.is_container(key),
            final(self)@ == old(self)@.with_fractions(key, fractions),
            old(self).wf() ==> final(self).wf(),
            final(self)@.windows() == old(self)@.windows(),
            forall|k: NodeKey| #[trigger] final(self)@.loose(k) ==> old(self)@.loose(k),
            old(self)@.mentions_live() ==> final(self)@.mentions_live(),
    {
        reveal(Tree::mentions_live);
        match self.node_sizing(key) {
            Some(sizing) => {
                let mut sizing = sizing;
                sizing.fractions = fractions;
                self.set_node_sizing(key, sizing)
            },
            None => false,
        }
    }

    /// Clears both shares of a node.
    pub fn unset_node_fractions(&mut self, key: NodeKey) -> (r: bool)
        ensures
            r == old(self)@.is_container(key),
            final(self)@ == old(self)@.unset(key),
            old(self).wf() ==> final(self).wf(),
            final(self)@.windows() == old(self)@.windows(),
            forall|k: NodeKey| #[trigger] final(self)@.loose(k) ==> old(self)@.loose(k),
            old(self)@.mentions_live() ==> final(self)@.mentions_live(),
    {
        reveal(Tree::mentions_live);
        self.set_node_fractions(key, ChildFractions::unset())
    }

    /// The share of a node along the axis of `layout`.
    pub fn node_fraction(&self, key: NodeKey, layout: Layout) -> (r: Option<Real>)
        ensures
            r == match self@.sizing_of(key) {
                Some(sizing) => Some(sizing.share(layout)),
                None => None,
            },
    {
        match self.node_sizing(key) {
            Some(sizing) => Some(sizing.fraction(layout)),
            None => None,
        }
    }

    pub fn set_node_fraction(&mut self, key: NodeKey, layout: Layout, fraction: Real) -> (r: bool)
        ensures
            r == old(self)@.is_container(key),
            final(self)@ == match old(self)@.sizing_of(key) {
                Some(sizing) => old(self)@.with_sizing(key, sizing.with_share(layout, fraction)),
                None => old(self)@,
            },
            old(self).wf() ==> final(self).wf(),
            final(self)@.windows() == old(self)@.windows(),
            forall|k: NodeKey| #[trigger] final(self)@.loose(k) ==> old(self)@.loose(k),
            old(self)@.mentions_live() ==> final(self)@.mentions_live(),
    {
        reveal(Tree::mentions_live);
        match self.node_sizing(key) {
            Some(sizing) => {
                let mut sizing = sizing;
                sizing.set_fraction(layout, fraction);
                self.set_node_sizing(key, sizing)
            },
            None => false,
        }
    }

    /// The span the last arranged size of a node came from.
    pub fn node_child_total(&self, key: NodeKey, layout: Layout) -> (r: Option<Real>)
        ensures
            r == match self@.sizing_of(key) {
                Some(sizing) => Some(sizing.total(layout)),
                None => None,
            },
    {
        match self.node_sizing(key) {
            Some(sizing) => Some(sizing.child_total(layout)),
            None => None,
        }
    }

    pub fn set_node_child_total(&mut self, key: NodeKey, layout: Layout, total: Real) -> (r: bool)
        ensures
            r == old(self)@.is_container(key),
            final(self)@ == match old(self)@.sizing_of(key) {
                Some(sizing) => old(self)@.with_sizing(key, sizing.with_total(layout, total)),
                None => old(self)@,
            },
            old(self).wf() ==> final(self).wf(),
            final(self)@.windows() == old(self)@.windows(),
            forall|k: NodeKey| #[trigger] final(self)@.loose(k) ==> old(self)@.loose(k),
            old(self)@.mentions_live() ==> final(self)@.mentions_live(),
    {
        reveal(Tree::mentions_live);
        match self.node_sizing(key) {
            Some(sizing) => {
                let mut sizing = sizing;
                sizing.set_child_total(layout, total);
                self.set_node_sizing(key, sizing)
            },
            None => false,
        }
    }

    /// The box a node held just before it entered fullscreen.
    pub fn fullscreen_restore_geometry(&self, key: NodeKey) -> (r: Option<Rect>)
        ensures
            r == match self@.sizing_of(key) {
                Some(sizing) => sizing.fullscreen_restore_geometry,
                None => None,
            },
    {
        match self.node_sizing(key) {
            Some(sizing) => sizing.fullscreen_restore_geometry,
            None => None,
        }
    }

    fn set_restore(&mut self, key: NodeKey, restore: Option<Rect>)
        ensures
            final(self)@ == old(self)@.with_restore(key, restore),
            old(self).wf() ==> final(self).wf(),
            final(self)@.windows() == old(self)@.windows(),
            forall|k: NodeKey| #[trigger] final(self)@.loose(k) ==> old(self)@.loose(k),
            old(self)@.mentions_live() ==> final(self)@.mentions_live(),
    {
        reveal(Tree::mentions_live);
        if let Some(sizing) = self.node_sizing(key) {
            let mut sizing = sizing;
            sizing.fullscreen_restore_geometry = restore;
            self.set_node_sizing(key, sizing);
        }
    }

    pub(crate) fn ask(&mut self, key: NodeKey, request: TileRequest)
        requires
            old(self).wf(),
        ensures
            final(self)@ == old(self)@.asked(key, request),
            final(self).wf(),
            final(self)@.windows() == old(self)@.windows(),
            forall|k: NodeKey| #[trigger] final(self)@.loose(k) ==> old(self)@.loose(k),
            old(self)@.mentions_live() ==> final(self)@.mentions_live(),
    {
        reveal(Tree::mentions_live);
        if self.is_leaf(key) {
            self.ask_of(key, request);
        }
    }

    /// Points workspace fullscreen at a live node other than the workspace, or at nothing, and
    /// saves the box the node holds. Answers whether anything changed.
    pub fn set_fullscreen_key(&mut self, key: Option<NodeKey>) -> (r: bool)
        requires
            old(self).wf(),
        ensures
            final(self).wf(),
            r == (old(self)@.fullscreen != key && (key matches Some(k) ==> k != old(self)@.root
                && old(self)@.has(k))),
            !r ==> final(self)@ == old(self)@,
            r ==> final(self)@ == {
                let t = match old(self)@.fullscreen {
                    Some(former) => old(self)@.with_restore(former, None),
                    None => old(self)@,
                };
                let u = match key {
                    Some(k) => t.with_restore(k, t.box_of(k)),
                    None => t,
                };
                u.with_fullscreen(key)
            },
            final(self)@.windows() == old(self)@.windows(),
            forall|k: NodeKey| #[trigger] final(self)@.loose(k) ==> old(self)@.loose(k),
            old(self)@.mentions_live() ==> final(self)@.mentions_live(),
    {
        reveal(Tree::mentions_live);
        if let Some(k) = key {
            if k == self.workspace_root() || !self.holds_node(k) {
                return false;
            }
        }
        if self.fullscreen_key() == key {
            return false;
        }
        if let Some(former) = self.fullscreen_key() {
            self.set_restore(former, None);
        }
        if let Some(k) = key {
            let restore = self.node_geometry(k);
            self.set_restore(k, restore);
        }
        self.set_fullscreen(key);
        true
    }

    /// Hands fullscreen from a node to its replacement, if the node owns it.
    #[verifier::spinoff_prover]
    pub fn transfer_fullscreen_to_replacement(&mut self, old_key: NodeKey, new_key: NodeKey)
        requires
            old(self).wf(),
        ensures
            final(self)@ == old(self)@.fullscreen_moved(old_key, new_key),
            final(self).wf(),
            final(self)@.windows() == old(self)@.windows(),
            forall|k: NodeKey| #[trigger] final(self)@.loose(k) ==> old(self)@.loose(k),
            old(self)@.mentions_live() && old(self)@.has(new_key) && new_key != old(self)@.root
                ==> final(self)@.mentions_live(),
    {
        reveal(Tree::fullscreen_moved);
        reveal(Tree::mentions_live);
        if self.fullscreen_key() != Some(old_key) {
            return;
        }
        let animate = !self.options().animations_off;
        let size = self.options().working_area.size;
        let restore = match self.node_geometry(new_key) {
            Some(rect) => rect,
            None => Rect::zero(),
        };
        self.ask(old_key, TileRequest::TileSize { tile_size: size, animate });
        self.ask(new_key, TileRequest::Fullscreen { animate });
        self.set_restore(old_key, None);
        self.set_restore(new_key, Some(restore));
        self.set_fullscreen(Some(new_key));
    }

    /// Brings one live node to the front of the focus order.
    pub(crate) fn raw_focus(&mut self, key: NodeKey)
        requires
            old(self).wf(),
            old(self)@.has(key),
        ensures
            final(self)@ == old(self)@.with_seat(old(self)@.seat.raw_focus(key)),
            final(self).wf(),
            final(self)@.windows() == old(self)@.windows(),
            forall|k: NodeKey| #[trigger] final(self)@.loose(k) ==> old(self)@.loose(k),
            old(self)@.mentions_live() ==> final(self)@.mentions_live(),
    {
        reveal(Tree::mentions_live);
        proof {
            lemma_raw_focused(self@, key);
        }
        self.seat_mut().raw_focus(key);
        proof {
            crate::windows::lemma_same_windows(old(self)@, self@);
        }
    }

    /// Puts a child under a new container without changing its slot. Answers with the new
    /// container, or with nothing when the child is not listed in the parent or the wrapper
    /// already has children.
    #[verifier::spinoff_prover]
    pub fn wrap_child_in_new_container(
        &mut self,
        parent_key: NodeKey,
        child_key: NodeKey,
        wrapper: ContainerData,
    ) -> (r: Option<NodeKey>)
        requires
            old(self).wf(),
            old(self)@.next_key < u64::MAX,
            wrapper@.tile is None,
        ensures
            final(self).wf(),
            r is Some <==> wrapper@.children.len() == 0 && old(self)@.kids(parent_key).contains(
                child_key,
            ),
            r is None ==> final(self)@ == old(self)@,
            r matches Some(w) ==> w == (NodeKey { id: old(self)@.next_key }) && !old(self)@.has(
                w,
            ) && final(self)@ == old(self)@.wrapped(parent_key, child_key, w, wrapper@),
            final(self)@.windows() == old(self)@.windows(),
            forall|k: NodeKey| #[trigger] final(self)@.loose(k) ==> old(self)@.loose(k),
            old(self)@.mentions_live() ==> final(self)@.mentions_live(),
    {
        reveal(Tree::fullscreen_moved);
        reveal(Tree::mentions_live);
        if wrapper.common.children.len() != 0 {
            return None;
        }
        let idx: usize = match self.child_index(parent_key, child_key) {
            Some(idx) => idx,
            None => {
                return None;
            },
        };
        let ghost t = self@;
        proof {
            crate::walk::lemma_slot(t, parent_key, child_key, idx as int);
        }
        let focused = self.seat().node() == Some(child_key);
        let rect = match self.node_geometry(child_key) {
            Some(rect) => rect,
            None => {
                return None;
            },
        };
        let fractions = match self.node_fractions(child_key) {
            Some(fractions) => fractions,
            None => {
                assert(child_key != t.root);
                return None;
            },
        };
        assert(!t.is_floating(child_key)) by {
            if t.is_floating(child_key) {
                let i = choose|i: int|
                    0 <= i < t.floating.len() && #[trigger] t.floating[i].key == child_key;
                assert(t.parents[t.floating[i].key] == t.root);
                assert(t.nodes[t.root].children.contains(child_key));
            }
        }
        let mut wrapper = wrapper;
        wrapper.common.set_geometry(rect);
        let ghost node = wrapper@;
        proof {
            lemma_added(t, NodeKey { id: t.next_key }, node);
        }
        let wrapper_key = self.insert_node(wrapper);
        let ghost named = self@;
        proof {
            assert(named.parents == t.parents);
            assert(!named.is_floating(child_key)) by {
                if named.is_floating(child_key) {
                    let i = choose|i: int|
                        0 <= i < named.floating.len() && #[trigger] named.floating[i].key
                            == child_key;
                    assert(t.floating[i].key == child_key);
                }
            }
            lemma_interposed(named, child_key, wrapper_key);
            assert(parent_key != wrapper_key);
            assert(child_key != wrapper_key);
            assert(named.kids(parent_key) == t.kids(parent_key));
        }
        self.detach_child(child_key);
        self.attach_child(wrapper_key, parent_key, idx);
        self.attach_child(child_key, wrapper_key, 0);
        assert(self@ == named.interposed(child_key, wrapper_key));
        self.set_node_fractions(wrapper_key, fractions.narrow());
        self.transfer_fullscreen_to_replacement(child_key, wrapper_key);
        proof {
            lemma_fullscreen_moved_keeps(
                named.interposed(child_key, wrapper_key).with_fractions(
                    wrapper_key,
                    fractions.narrowed(),
                ),
                child_key,
                wrapper_key,
            );
        }
        if focused {
            self.raw_focus(wrapper_key);
            self.raw_focus(child_key);
        }
        Some(wrapper_key)
    }
}

/// Whether two trees have the same nodes, linked alike, of the same kinds and layouts, and the
/// same seat, floating stack and cache.
pub open spec fn alike(t: Tree, u: Tree) -> bool {
    &&& u.parents == t.parents
    &&& u.root == t.root
    &&& u.seat == t.seat
    &&& u.floating == t.floating
    &&& u.next_key == t.next_key
    &&& u.caches == t.caches
    &&& forall|k: NodeKey| #[trigger] u.has(k) == t.has(k)
    &&& forall|k: NodeKey| #[trigger]
        t.has(k) ==> u.nodes[k].children == t.nodes[k].children && u.nodes[k].layout
            == t.nodes[k].layout && u.nodes[k].workspace == t.nodes[k].workspace
            && u.nodes[k].prev_split_layout == t.nodes[k].prev_split_layout
            && u.nodes[k].user_created == t.nodes[k].user_created && (u.nodes[k].tile is Some
            <==> t.nodes[k].tile is Some)
}

/// Handing fullscreen over changes neither which nodes there are nor how they are linked.
#[verifier::spinoff_prover]
pub proof fn lemma_fullscreen_moved_keeps(t: Tree, from: NodeKey, to: NodeKey)
    ensures
        alike(t, t.fullscreen_moved(from, to)),
{
    reveal(Tree::fullscreen_moved);
    if t.fullscreen == Some(from) {
        let animate = !t.options.animations_off;
        let restore = match t.box_of(to) {
            Some(rect) => rect,
            None => Rect::spec_zero(),
        };
        let a = t.asked(
            from,
            TileRequest::TileSize { tile_size: t.options.working_area.size, animate },
        );
        let b = a.asked(to, TileRequest::Fullscreen { animate });
        let c = b.with_restore(from, None);
        let d = c.with_restore(to, Some(restore));
        assert(alike(t, a));
        assert(alike(a, b));
        assert(alike(b, c));
        assert(alike(c, d));
        assert(alike(t, b)) by {
            lemma_alike_trans(t, a, b);
        }
        assert(alike(t, c)) by {
            lemma_alike_trans(t, b, c);
        }
        assert(alike(t, d)) by {
            lemma_alike_trans(t, c, d);
        }
    }
}

proof fn lemma_alike_trans(t: Tree, u: Tree, v: Tree)
    requires
        alike(t, u),
        alike(u, v),
    ensures
        alike(t, v),
{
    assert forall|k: NodeKey| #[trigger] v.has(k) == t.has(k) by {
        assert(v.has(k) == u.has(k));
        assert(u.has(k) == t.has(k));
    }
    assert forall|k: NodeKey| #[trigger] t.has(k) implies v.nodes[k].children
        == t.nodes[k].children && v.nodes[k].layout == t.nodes[k].layout && v.nodes[k].workspace
        == t.nodes[k].workspace && v.nodes[k].prev_split_layout == t.nodes[k].prev_split_layout
        && v.nodes[k].user_created == t.nodes[k].user_created && (v.nodes[k].tile is Some
        <==> t.nodes[k].tile is Some) by {
        assert(u.has(k) == t.has(k));
        assert(u.has(k));
    }
}

impl Tree {
    /// The structure of wrapping everything `p` holds: its children move under the fresh
    /// container `w`, which becomes its only child.
    pub open spec fn enclosed(self, p: NodeKey, w: NodeKey) -> Tree {
        let kids = self.nodes[p].children;
        Tree {
            nodes: self.nodes.insert(w, self.nodes[w].with_children(kids)).insert(
                p,
                self.nodes[p].with_children(seq![w]),
            ),
            parents: relinked(self.parents, kids, w).insert(w, p),
            ..self
        }
    }

    /// The children of `p` moved under a new container, with a layout for each of the two.
    pub open spec fn gathered(self, p: NodeKey, w: NodeKey, inner: Layout, outer: Layout) -> Tree {
        let t = self.added(w, Node::split(inner)).enclosed(p, w);
        t.with_node(p, t.nodes[p].with_layout(outer))
    }
}

/// Wrapping everything a node holds keeps the tree well-formed.
pub proof fn lemma_enclosed(t: Tree, p: NodeKey, w: NodeKey)
    requires
        t.wf(),
        t.is_parent(p),
        t.nodes[p].children.len() > 0,
        t.is_split(w),
        w != p,
        !t.parents.contains_key(w),
        t.nodes[w].children.len() == 0,
    ensures
        t.enclosed(p, w).wf(),
        t.enclosed(p, w).parents.contains_key(w),
        t.enclosed(p, w).parents[w] == p,
        forall|x: NodeKey|
            t.nodes[p].children.contains(x) ==> #[trigger] t.enclosed(p, w).parents.contains_key(
                x,
            ) && t.enclosed(p, w).parents[x] == w,
        forall|x: NodeKey|
            x != w && !t.nodes[p].children.contains(x) ==> (#[trigger] t.enclosed(
                p,
                w,
            ).parents.contains_key(x) <==> t.parents.contains_key(x)) && (
            t.parents.contains_key(x) ==> t.enclosed(p, w).parents[x] == t.parents[x]),
{
    let u = t.enclosed(p, w);
    let kids = t.nodes[p].children;
    lemma_relinked(t.parents, kids, w);
    assert forall|i: int| 0 <= i < kids.len() implies t.parents.contains_key(#[trigger] kids[i])
        && t.parents[kids[i]] == p by {
        assert(t.parents.contains_key(t.nodes[p].children[i]));
    }
    assert(!kids.contains(w)) by {
        if kids.contains(w) {
            let i = choose|i: int| 0 <= i < kids.len() && kids[i] == w;
            assert(t.parents.contains_key(kids[i]));
        }
    }
    assert forall|x: NodeKey| #[trigger] t.parents.contains_key(x) implies t.parents[x] != w by {
        if t.parents[x] == w {
            assert(t.nodes[w].children.contains(x) || t.is_floating(x));
            if t.is_floating(x) {
                let i = choose|i: int|
                    0 <= i < t.floating.len() && #[trigger] t.floating[i].key == x;
                assert(t.parents[t.floating[i].key] == t.root);
            }
        }
    }
    let (rank, bound) = ranks(t.parents);
    lemma_ranks_fit(t.parents);
    let spread = |k: NodeKey|
        if k == w {
            2 * rank(p) + 1
        } else {
            2 * rank(k)
        };
    let top = 2 * bound + 2 * rank(p) + 1;
    assert forall|k: NodeKey| #[trigger] u.parents.contains_key(k) implies spread(u.parents[k])
        < spread(k) && spread(k) <= top by {
        if k == w {
        } else if kids.contains(k) {
            let i = choose|i: int| 0 <= i < kids.len() && kids[i] == k;
            assert(t.parents.contains_key(kids[i]));
        } else {
            assert(t.parents.contains_key(k));
        }
    }
    assert(ranked(u.parents, spread, top));
    assert forall|q: NodeKey, i: int|
        #![trigger u.nodes[q].children[i]]
        u.has(q) && 0 <= i < u.nodes[q].children.len() implies u.parents.contains_key(
        u.nodes[q].children[i],
    ) && u.parents[u.nodes[q].children[i]] == q by {
        let x = u.nodes[q].children[i];
        if q == p {
        } else if q == w {
            assert(kids.contains(x));
        } else {
            assert(t.parents[t.nodes[q].children[i]] == q);
            assert(!kids.contains(x)) by {
                if kids.contains(x) {
                    let j = choose|j: int| 0 <= j < kids.len() && kids[j] == x;
                    assert(t.parents[kids[j]] == p);
                }
            }
            assert(x != w);
        }
    }
    assert forall|x: NodeKey| #[trigger] u.parents.contains_key(x) implies u.has(x) && u.has(
        u.parents[x],
    ) && (u.nodes[u.parents[x]].children.contains(x) || (u.is_floating(x) && u.parents[x]
        == u.root)) by {
        if x == w {
            assert(u.nodes[p].children[0] == w);
        } else if kids.contains(x) {
            let i = choose|i: int| 0 <= i < kids.len() && kids[i] == x;
            assert(t.parents.contains_key(kids[i]));
            assert(u.nodes[w].children.contains(x));
        } else {
            assert(t.parents.contains_key(x));
            if t.is_floating(x) {
                assert(u.is_floating(x));
            }
        }
    }
    assert forall|q: NodeKey|
        #![trigger u.nodes[q].children]
        u.has(q) implies u.nodes[q].children.no_duplicates() by {
        assert(t.nodes[q].children.no_duplicates());
        assert(kids.no_duplicates());
    }
    assert forall|i: int| 0 <= i < u.floating.len() implies u.parents.contains_key(
        (#[trigger] u.floating[i]).key,
    ) && u.parents[u.floating[i].key] == u.root && !u.nodes[u.root].children.contains(
        u.floating[i].key,
    ) by {
        let f = t.floating[i].key;
        assert(t.parents[t.floating[i].key] == t.root);
        assert(f != w);
        if kids.contains(f) {
            let j = choose|j: int| 0 <= j < kids.len() && kids[j] == f;
            assert(t.parents[kids[j]] == p);
            assert(p == t.root);
        }
    }
    assert(u.seated()) by {
        assert forall|x: NodeKey| #[trigger] u.seat.order.contains(x) <==> u.has(x) by {
            assert(t.seat.order.contains(x) <==> t.has(x));
        }
    }
}

impl ContainerArena {
    /// Moves everything a node holds under a new container, giving each of the two a layout.
    /// Answers with the new container, or with nothing when there is nothing to move.
    pub fn wrap_branch_children(
        &mut self,
        branch_root: NodeKey,
        wrapper_layout: Layout,
        root_layout: Layout,
    ) -> (r: Option<NodeKey>)
        requires
            old(self).wf(),
            old(self)@.next_key < u64::MAX,
        ensures
            final(self).wf(),
            r is Some <==> old(self)@.kids(branch_root).len() > 0,
            r is None ==> final(self)@ == old(self)@,
            r matches Some(w) ==> w == (NodeKey { id: old(self)@.next_key }) && !old(self)@.has(
                w,
            ) && final(self)@ == old(self)@.gathered(
                branch_root,
                w,
                wrapper_layout,
                root_layout,
            ),
            final(self)@.windows() == old(self)@.windows(),
            forall|k: NodeKey| #[trigger] final(self)@.loose(k) ==> old(self)@.loose(k),
            old(self)@.mentions_live() ==> final(self)@.mentions_live(),
    {
        reveal(Tree::mentions_live);
        let ghost t = self@;
        let mut kids: Vec<NodeKey> = Vec::new();
        match self.get_container(branch_root) {
            Some(container) => {
                let list = &container.children;
                if list.len() == 0 {
                    return None;
                }
                let mut i: usize = 0;
                while i < list.len()
                    invariant
                        i <= list@.len(),
                        kids@ == list@.take(i as int),
                    decreases list@.len() - i,
                {
                    kids.push(list[i]);
                    assert(list@.take(i as int).push(list@[i as int]) =~= list@.take(
                        i as int + 1,
                    ));
                    i = i + 1;
                }
                assert(list@.take(i as int) =~= list@);
            },
            None => {
                return None;
            },
        }
        let wrapper = ContainerData::new(wrapper_layout);
        proof {
            lemma_added(t, NodeKey { id: t.next_key }, Node::split(wrapper_layout));
        }
        let wrapper_key = self.insert_node(wrapper);
        let ghost a = self@;
        proof {
            lemma_enclosed(a, branch_root, wrapper_key);
        }
        self.relink_all(&kids, wrapper_key);
        self.set_parent_link(wrapper_key, branch_root);
        self.set_children(wrapper_key, kids);
        let mut only: Vec<NodeKey> = Vec::new();
        only.push(wrapper_key);
        assert(only@ =~= seq![wrapper_key]);
        self.set_children(branch_root, only);
        assert(self@.nodes =~= a.enclosed(branch_root, wrapper_key).nodes);
        self.set_layout_of(branch_root, root_layout);
        Some(wrapper_key)
    }

    /// The same for everything the workspace holds.
    pub fn wrap_workspace_children(&mut self, wrapper_layout: Layout, root_layout: Layout) -> (r:
        Option<NodeKey>)
        requires
            old(self).wf(),
            old(self)@.next_key < u64::MAX,
        ensures
            final(self).wf(),
            r is Some <==> old(self)@.kids(old(self)@.root).len() > 0,
            r is None ==> final(self)@ == old(self)@,
            r matches Some(w) ==> w == (NodeKey { id: old(self)@.next_key }) && !old(self)@.has(
                w,
            ) && final(self)@ == old(self)@.gathered(
                old(self)@.root,
                w,
                wrapper_layout,
                root_layout,
            ),
            final(self)@.windows() == old(self)@.windows(),
            forall|k: NodeKey| #[trigger] final(self)@.loose(k) ==> old(self)@.loose(k),
            old(self)@.mentions_live() ==> final(self)@.mentions_live(),
    {
        reveal(Tree::mentions_live);
        let root = self.workspace_root();
        self.wrap_branch_children(root, wrapper_layout, root_layout)
    }
}

} // verus!
