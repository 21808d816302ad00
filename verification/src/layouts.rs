//! What splits and layout commands come to.

use crate::axis::{Layout, NodeKey};
use crate::insert::lemma_wrapped_slot;
use crate::measure::Rect;
use crate::movement::lemma_gathered;
use crate::node::Node;
use crate::split::{cycled, first_covering, next_different, LayoutCycleEntry};
use crate::tile::TileRequest;
use crate::tree::{lemma_added, lemma_lineage, Tree};
use crate::walk::lemma_slot;
use vstd::prelude::*;

verus! {

/// Whether a layout shows one child at a time.
pub open spec fn switches(layout: Layout) -> bool {
    layout == Layout::Tabbed || layout == Layout::Stacked
}

/// Whether a layout puts its children side by side or one above the other.
pub open spec fn divides(layout: Layout) -> bool {
    layout == Layout::SplitH || layout == Layout::SplitV
}

impl Tree {
    /// Whether a layout command aimed at `target` is about the container `con` around it, and
    /// this is not one that would be flattened away first: it holds more than the one node, or
    /// stands beside others, or stands directly in the workspace.
    pub open spec fn governs(self, con: NodeKey, target: NodeKey) -> bool {
        &&& self.wf()
        &&& self.has(target)
        &&& self.parents.contains_key(target)
        &&& self.parents[target] == con
        &&& !self.is_floating(target)
        &&& con != self.root
        &&& self.nodes[con].children.len() != 1 || !self.parents.contains_key(con)
            || self.parents[con] == self.root || self.nodes[self.parents[con]].children.len() != 1
    }

    /// Whether only the layout of `con` differs, and what it remembers of it.
    pub open spec fn relaid(self, u: Tree, con: NodeKey) -> bool {
        &&& u.nodes == self.nodes.insert(
            con,
            Node {
                layout: u.nodes[con].layout,
                prev_split_layout: u.nodes[con].prev_split_layout,
                user_created: u.nodes[con].user_created,
                ..self.nodes[con]
            },
        )
        &&& u.parents == self.parents
        &&& u.root == self.root
        &&& u.floating == self.floating
        &&& u.seat == self.seat
        &&& u.fullscreen == self.fullscreen
        &&& u.caches == self.caches
        &&& u.options == self.options
        &&& u.next_key == self.next_key
    }
}

proof fn lemma_governs(t: Tree, con: NodeKey, target: NodeKey)
    requires
        t.governs(con, target),
    ensures
        t.is_split(con),
        t.flattened_once(target) == t,
        t.layout_holder(target) == Some(con),
        t.toggle_source(target) == Some((con, t.nodes[con].layout)),
        forall|layout: Layout| #[trigger]
            t.laid(layout, target) == (
                t.explicit_commanded(con, layout),
                t.nodes[con].layout != layout,
            ),
        forall|layout: Layout| (#[trigger] t.toggled_to(layout, con, target)).0
            == t.explicit_commanded(con, layout),
{
    reveal(Tree::flattened_once);
    reveal(Tree::laid);
    reveal(Tree::toggled_to);
    assert(t.has(con));
    assert(t.nodes[con].children.contains(target));
    assert(t.nodes[con].children.len() > 0);
    assert(t.nodes.contains_key(con));
}

proof fn lemma_governs_on(t: Tree, u: Tree, con: NodeKey, target: NodeKey)
    requires
        t.governs(con, target),
        t.relaid(u, con),
    ensures
        u.governs(con, target),
{
    assert(t.has(con));
    crate::tree::lemma_with_node(t, con, u.nodes[con]);
    crate::tree::lemma_same_shape(t.with_node(con, u.nodes[con]), u);
    assert(u.nodes[con].children == t.nodes[con].children);
    if t.parents.contains_key(con) {
        assert(u.nodes[t.parents[con]].children == t.nodes[t.parents[con]].children);
    }
}

/// A layout command gives the container around its target the layout, and changes nothing else of
/// the tree.
pub proof fn law_layout_command_sets_the_layout(
    t: Tree,
    con: NodeKey,
    target: NodeKey,
    layout: Layout,
)
    requires
        t.governs(con, target),
    ensures
        t.layout_commanded(layout, target).0.nodes[con].layout == layout,
        t.relaid(t.layout_commanded(layout, target).0, con),
        t.layout_commanded(layout, target).1 <==> t.nodes[con].layout != layout,
{
    lemma_governs(t, con, target);
    assert(t.laid(layout, target).0 == t.explicit_commanded(con, layout));
}

/// Out of tabs and stacks a toggle leads back: a container laid out as a split, given tabs or
/// stacks and perhaps others of the two after that, has the split it had when its split is toggled,
/// and also when it is sent back to its default.
pub proof fn law_toggle_leads_back_to_the_split(
    t: Tree,
    con: NodeKey,
    target: NodeKey,
    first: Layout,
    second: Layout,
)
    requires
        t.governs(con, target),
        divides(t.nodes[con].layout),
        switches(first),
        switches(second),
    ensures
        ({
            let a = t.layout_commanded(first, target).0;
            let b = a.layout_commanded(second, target).0;
            &&& a.nodes[con].layout == first
            &&& b.nodes[con].layout == second
            &&& a.split_toggled(target).0.nodes[con].layout == t.nodes[con].layout
            &&& b.split_toggled(target).0.nodes[con].layout == t.nodes[con].layout
            &&& a.layout_defaulted(target).0.nodes[con].layout == t.nodes[con].layout
            &&& b.layout_defaulted(target).0.nodes[con].layout == t.nodes[con].layout
        }),
{
    let a = t.layout_commanded(first, target).0;
    law_layout_command_sets_the_layout(t, con, target, first);
    lemma_governs(t, con, target);
    assert(t.laid(first, target).0 == t.explicit_commanded(con, first));
    lemma_governs_on(t, a, con, target);
    lemma_governs(a, con, target);
    let b = a.layout_commanded(second, target).0;
    law_layout_command_sets_the_layout(a, con, target, second);
    assert(a.laid(second, target).0 == a.explicit_commanded(con, second));
    lemma_governs_on(a, b, con, target);
    lemma_governs(b, con, target);
    let split = t.nodes[con].layout;
    assert(a.nodes[con].prev_split_layout == Some(split));
    assert(b.nodes[con].prev_split_layout == Some(split));
    assert(a.toggled_to(split, con, target).0 == a.explicit_commanded(con, split));
    assert(b.toggled_to(split, con, target).0 == b.explicit_commanded(con, split));
}

/// Toggling the split of a container turns it the other way, and toggling again turns it back.
pub proof fn law_toggle_turns_a_split(t: Tree, con: NodeKey, target: NodeKey)
    requires
        t.governs(con, target),
        divides(t.nodes[con].layout),
    ensures
        ({
            let a = t.split_toggled(target).0;
            &&& t.relaid(a, con)
            &&& divides(a.nodes[con].layout)
            &&& a.nodes[con].layout != t.nodes[con].layout
            &&& a.split_toggled(target).0.nodes[con].layout == t.nodes[con].layout
        }),
{
    lemma_governs(t, con, target);
    let turned = if t.nodes[con].layout == Layout::SplitH {
        Layout::SplitV
    } else {
        Layout::SplitH
    };
    assert(t.toggled_to(turned, con, target).0 == t.explicit_commanded(con, turned));
    let a = t.split_toggled(target).0;
    lemma_governs_on(t, a, con, target);
    lemma_governs(a, con, target);
    assert(a.toggled_to(t.nodes[con].layout, con, target).0 == a.explicit_commanded(
        con,
        t.nodes[con].layout,
    ));
}

/// A switcher that remembers no split is toggled to the one along the screen: one above the other
/// on a screen that is higher than wide, else side by side.
pub proof fn law_toggle_without_memory_follows_the_screen(t: Tree, con: NodeKey, target: NodeKey)
    requires
        t.governs(con, target),
        switches(t.nodes[con].layout),
        t.nodes[con].prev_split_layout is None,
    ensures
        ({
            let a = t.split_toggled(target).0;
            &&& t.relaid(a, con)
            &&& divides(a.nodes[con].layout)
            &&& a.nodes[con].layout == Layout::SplitV <==> t.options.view_size.w.less(
                t.options.view_size.h,
            )
        }),
{
    lemma_governs(t, con, target);
    let along = t.toggled_split(t.nodes[con].layout, Some(con));
    assert(t.toggled_to(along, con, target).0 == t.explicit_commanded(con, along));
}

/// Toggling through all layouts goes from side by side to one above the other, to stacks, to tabs
/// and back to side by side.
pub proof fn law_toggle_all_goes_round(t: Tree, con: NodeKey, target: NodeKey)
    requires
        t.governs(con, target),
    ensures
        ({
            let a = t.layout_toggled(target).0;
            &&& t.relaid(a, con)
            &&& a.nodes[con].layout == match t.nodes[con].layout {
                Layout::SplitH => Layout::SplitV,
                Layout::SplitV => Layout::Stacked,
                Layout::Stacked => Layout::Tabbed,
                Layout::Tabbed => Layout::SplitH,
            }
        }),
{
    lemma_governs(t, con, target);
    let next = t.nodes[con].layout.cycled();
    assert(t.toggled_to(next, con, target).0 == t.explicit_commanded(con, next));
}

// ---------------------------------------------------------------------------------------------
// Cycles of the user's own
// ---------------------------------------------------------------------------------------------

proof fn lemma_first_covering(cycle: Seq<LayoutCycleEntry>, layout: Layout, i: int)
    requires
        0 <= i,
    ensures
        match first_covering(cycle, layout, i) {
            Some(n) => i <= n < cycle.len() && cycle[n].covers(layout) && forall|m: int|
                i <= m < n ==> !(#[trigger] cycle[m]).covers(layout),
            None => forall|m: int| i <= m < cycle.len() ==> !(#[trigger] cycle[m]).covers(layout),
        },
    decreases cycle.len() - i,
{
    if i < cycle.len() && !cycle[i].covers(layout) {
        lemma_first_covering(cycle, layout, i + 1);
    }
}

proof fn lemma_next_different(
    cycle: Seq<LayoutCycleEntry>,
    current: Layout,
    split: Layout,
    at: int,
    n: nat,
)
    requires
        cycle.len() > 0,
        0 <= at,
    ensures
        match next_different(cycle, current, split, at, n) {
            Some(l) => l != current && exists|m: int|
                0 <= m < cycle.len() && (#[trigger] cycle[m]).destination(split) == l,
            None => forall|m: int|
                at <= m < at + n ==> (#[trigger] cycle[m % (cycle.len() as int)]).destination(split)
                    == current,
        },
    decreases n,
{
    if n > 0 {
        let here = at % (cycle.len() as int);
        assert(0 <= here < cycle.len()) by (nonlinear_arith)
            requires
                here == at % (cycle.len() as int),
                cycle.len() > 0,
        ;
        assert(cycle[here] == cycle[at % (cycle.len() as int)]);
        lemma_next_different(cycle, current, split, at + 1, (n - 1) as nat);
    }
}

/// A cycle leads to the layout of one of its entries, and never to the one there already is.
pub proof fn law_cycle_leads_elsewhere(
    cycle: Seq<LayoutCycleEntry>,
    current: Layout,
    split: Layout,
)
    requires
        cycle.len() > 0,
    ensures
        cycled(cycle, current, split) matches Some(l) ==> l != current && exists|m: int|
            0 <= m < cycle.len() && (#[trigger] cycle[m]).destination(split) == l,
{
    let start = match first_covering(cycle, current, 0) {
        Some(i) => (i + 1) % (cycle.len() as int),
        None => 0,
    };
    lemma_first_covering(cycle, current, 0);
    assert(start >= 0);
    lemma_next_different(cycle, current, split, start, cycle.len());
}

/// A cycle of two or more different layouts goes round: from each to the one after it, from the
/// last to the first, and into it at the first.
pub proof fn law_cycle_goes_round(
    cycle: Seq<LayoutCycleEntry>,
    layouts: Seq<Layout>,
    current: Layout,
    split: Layout,
)
    requires
        cycle.len() == layouts.len(),
        layouts.len() >= 2,
        layouts.no_duplicates(),
        forall|i: int|
            0 <= i < cycle.len() ==> #[trigger] cycle[i] == LayoutCycleEntry::Layout(layouts[i]),
    ensures
        forall|i: int|
            0 <= i && i + 1 < layouts.len() && #[trigger] layouts[i] == current ==> cycled(
                cycle,
                current,
                split,
            ) == Some(layouts[i + 1]),
        layouts.last() == current ==> cycled(cycle, current, split) == Some(layouts[0]),
        !layouts.contains(current) ==> cycled(cycle, current, split) == Some(layouts[0]),
{
    lemma_first_covering(cycle, current, 0);
    let n = layouts.len() as int;
    assert forall|m: int| 0 <= m < n implies (#[trigger] cycle[m]).covers(current) == (layouts[m]
        == current) by {}
    let start = match first_covering(cycle, current, 0) {
        Some(i) => (i + 1) % n,
        None => 0,
    };
    match first_covering(cycle, current, 0) {
        Some(i) => {
            assert(layouts[i] == current);
            assert forall|j: int| 0 <= j < n && #[trigger] layouts[j] == current implies j == i by {}
            let next = if i + 1 < n {
                i + 1
            } else {
                0
            };
            assert(start == next) by (nonlinear_arith)
                requires
                    start == (i + 1) % n,
                    0 <= i < n,
                    next == if i + 1 < n {
                        i + 1
                    } else {
                        0
                    },
            ;
            assert(start % n == start) by (nonlinear_arith)
                requires
                    0 <= start < n,
            ;
            assert(layouts[start] != layouts[i]);
            assert(cycle[start % n].destination(split) == layouts[start]);
        },
        None => {
            assert(0int % n == 0) by (nonlinear_arith)
                requires
                    n > 0,
            ;
            assert(layouts[0] != current) by {
                assert(!cycle[0].covers(current));
            }
            assert(!layouts.contains(current)) by {
                if layouts.contains(current) {
                    let j = choose|j: int| 0 <= j < n && layouts[j] == current;
                    assert(!cycle[j].covers(current));
                }
            }
            assert(cycle[0int % n].destination(split) == layouts[0]);
        },
    }
}

// ---------------------------------------------------------------------------------------------
// Splits
// ---------------------------------------------------------------------------------------------

/// A window with siblings, or in tabs or stacks, that is split gets a new container of its own: it
/// stands where the window stood, is laid out as asked and holds the window alone, and the siblings
/// stay where they are.
pub proof fn law_split_gives_a_window_its_container(
    t: Tree,
    layout: Layout,
    k: NodeKey,
    p: NodeKey,
    i: int,
)
    requires
        t.wf(),
        t.is_view(k),
        t.sits(k, p, i),
        t.nodes[p].children.len() > 1 || switches(t.nodes[p].layout),
        t.next_key < u64::MAX,
    ensures
        ({
            let w = NodeKey { id: t.next_key };
            let u = t.split_commanded(layout, k).0;
            &&& t.split_commanded(layout, k).1
            &&& u.nodes[p].children == t.nodes[p].children.update(i, w)
            &&& u.nodes[w].children == seq![k]
            &&& u.nodes[w].layout == layout
            &&& u.nodes[p].layout == t.nodes[p].layout
            &&& u.is_split(w)
            &&& u.nodes[w].user_created
        }),
{
    reveal(Tree::leaf_split);
    reveal(Tree::split_commanded);
    assert(t.is_parent(p));
    lemma_slot(t, p, k, i);
    let u = t.split_commanded(layout, k).0;
    let w = NodeKey { id: t.next_key };
    assert(!t.has(w)) by {
        if t.has(w) {
            assert(t.nodes.contains_key(w));
        }
    }
    lemma_wrapped(t, p, k, w, layout, i);
    assert(u.nodes == t.wrapped(p, k, w, Tree::asked_for(layout)).nodes);
}

/// What wrapping a child leaves behind.
pub(crate) proof fn lemma_wrapped(t: Tree, p: NodeKey, c: NodeKey, w: NodeKey, layout: Layout, i: int)
    requires
        t.wf(),
        t.sits(c, p, i),
        t.is_parent(p),
        !t.has(w),
        w.id < u64::MAX,
    ensures
        ({
            let u = t.wrapped(p, c, w, Tree::asked_for(layout));
            &&& u.nodes[p].children == t.nodes[p].children.update(i, w)
            &&& u.nodes[w].children == seq![c]
            &&& u.nodes[w].layout == layout
            &&& u.nodes[p].layout == t.nodes[p].layout
            &&& u.is_split(w)
            &&& u.nodes[w].user_created
            &&& u.parents.contains_key(c)
            &&& u.parents[c] == w
        }),
{
    let node = Tree::asked_for(layout);
    lemma_wrapped_slot(t, p, c, w, node, i);
    lemma_slot(t, p, c, i);
    crate::swap::lemma_listed_not_floating(t, c);
    let own = Node { geometry: t.box_of(c)->0, ..node };
    lemma_added(t, w, own);
    let named = t.added(w, own);
    assert(!named.is_floating(c)) by {
        if named.is_floating(c) {
            let j = choose|j: int|
                0 <= j < named.floating.len() && #[trigger] named.floating[j].key == c;
            assert(t.floating[j].key == c);
        }
    }
    crate::links::lemma_interposed(named, c, w);
    let kids = t.nodes[p].children;
    assert(named.nodes[p].children == kids);
    let a = named.unlinked(c);
    assert(kids.no_duplicates());
    crate::tree::lemma_without_is_remove(kids, c);
    assert(kids.index_of(c) == i);
    let b = a.linked_at(w, p, i);
    assert(b.nodes[p].children =~= kids.update(i, w));
    let placed = named.interposed(c, w);
    let shared = placed.with_fractions(w, t.fractions_of(c)->0.narrowed());
    crate::links::lemma_fullscreen_moved_keeps(shared, c, w);
    let moved = shared.fullscreen_moved(c, w);
    lemma_moved_frame(shared, c, w);
    let u = t.wrapped(p, c, w, node);
    assert(u.nodes == moved.nodes);
    assert(shared.has(p) && shared.has(w));
    assert(moved.nodes[p].children == shared.nodes[p].children);
    assert(moved.nodes[w].children == shared.nodes[w].children);
}

/// Whether two trees agree on what is linked to what, and how it is laid out.
pub(crate) open spec fn same_frame(t: Tree, u: Tree) -> bool {
    &&& u.parents == t.parents
    &&& forall|x: NodeKey|
        (#[trigger] u.nodes[x]).layout == t.nodes[x].layout && u.nodes[x].user_created
            == t.nodes[x].user_created && u.nodes[x].children == t.nodes[x].children
            && u.nodes[x].workspace == t.nodes[x].workspace
}

proof fn lemma_asked_frame(t: Tree, k: NodeKey, request: TileRequest)
    ensures
        same_frame(t, t.asked(k, request)),
{
}

proof fn lemma_restore_frame(t: Tree, k: NodeKey, restore: Option<Rect>)
    ensures
        same_frame(t, t.with_restore(k, restore)),
{
}

/// Handing over fullscreen changes neither layouts nor who asked for a container.
pub(crate) proof fn lemma_moved_frame(t: Tree, from: NodeKey, to: NodeKey)
    ensures
        same_frame(t, t.fullscreen_moved(from, to)),
{
    reveal(Tree::fullscreen_moved);
    if t.fullscreen == Some(from) {
        let animate = !t.options.animations_off;
        let restore = match t.box_of(to) {
            Some(rect) => rect,
            None => Rect::spec_zero(),
        };
        let shrunk = TileRequest::TileSize { tile_size: t.options.working_area.size, animate };
        let a = t.asked(from, shrunk);
        let b = a.asked(to, TileRequest::Fullscreen { animate });
        let c = b.with_restore(from, None);
        let d = c.with_restore(to, Some(restore));
        lemma_asked_frame(t, from, shrunk);
        lemma_asked_frame(a, to, TileRequest::Fullscreen { animate });
        lemma_restore_frame(b, from, None);
        lemma_restore_frame(c, to, Some(restore));
        let u = t.fullscreen_moved(from, to);
        assert(u.nodes == d.nodes && u.parents == d.parents);
        assert forall|x: NodeKey|
            (#[trigger] u.nodes[x]).layout == t.nodes[x].layout && u.nodes[x].user_created
                == t.nodes[x].user_created && u.nodes[x].children == t.nodes[x].children
                && u.nodes[x].workspace == t.nodes[x].workspace by {
            assert(a.nodes[x].layout == t.nodes[x].layout);
            assert(b.nodes[x].layout == a.nodes[x].layout);
            assert(c.nodes[x].layout == b.nodes[x].layout);
            assert(d.nodes[x].layout == c.nodes[x].layout);
        }
    }
}

/// A window alone in a split that is split only turns that split the way that was asked for.
pub proof fn law_split_of_a_lone_window_turns_its_container(
    t: Tree,
    layout: Layout,
    k: NodeKey,
    p: NodeKey,
)
    requires
        t.wf(),
        t.is_view(k),
        t.sits(k, p, 0),
        t.nodes[p].children.len() == 1,
        divides(t.nodes[p].layout),
    ensures
        ({
            let u = t.split_commanded(layout, k).0;
            &&& t.split_commanded(layout, k).1
            &&& u.nodes == t.nodes.insert(
                p,
                Node {
                    layout,
                    user_created: t.nodes[p].user_created || p != t.root,
                    ..t.nodes[p]
                },
            )
            &&& u.parents == t.parents
        }),
{
    reveal(Tree::leaf_split);
    reveal(Tree::split_commanded);
    assert(t.is_parent(p));
    lemma_slot(t, p, k, 0);
}

/// The workspace split: everything it held stands together in one new container that keeps the
/// former layout, and the workspace has the layout that was asked for.
pub proof fn law_split_of_the_workspace(t: Tree, layout: Layout)
    requires
        t.wf(),
        t.nodes[t.root].children.len() > 0,
        t.next_key < u64::MAX,
    ensures
        ({
            let w = NodeKey { id: t.next_key };
            let u = t.split_commanded(layout, t.root).0;
            &&& t.split_commanded(layout, t.root).1
            &&& u.nodes[t.root].children == seq![w]
            &&& u.nodes[t.root].layout == layout
            &&& u.nodes[w].children == t.nodes[t.root].children
            &&& u.nodes[w].layout == t.nodes[t.root].layout
            &&& u.seat.selected == Some(w)
        }),
{
    reveal(Tree::split_commanded);
    reveal(Tree::workspace_split);
    let w = NodeKey { id: t.next_key };
    assert(!t.has(w)) by {
        if t.has(w) {
            assert(t.nodes.contains_key(w));
        }
    }
    lemma_gathered(t, t.root, w, t.nodes[t.root].layout, layout);
}

/// A layout command on a child of the workspace: everything the workspace holds stands together in
/// one new container with the layout, and the workspace keeps its own.
pub proof fn law_layout_in_the_workspace_makes_a_container(
    t: Tree,
    layout: Layout,
    target: NodeKey,
    i: int,
)
    requires
        t.wf(),
        t.sits(target, t.root, i),
        t.nodes[t.root].layout != layout,
        t.next_key < u64::MAX,
    ensures
        ({
            let w = NodeKey { id: t.next_key };
            let u = t.layout_commanded(layout, target).0;
            &&& t.layout_commanded(layout, target).1
            &&& u.nodes[t.root].children == seq![w]
            &&& u.nodes[t.root].layout == t.nodes[t.root].layout
            &&& u.nodes[w].children == t.nodes[t.root].children
            &&& u.nodes[w].layout == layout
        }),
{
    reveal(Tree::flattened_once);
    reveal(Tree::laid);
    lemma_slot(t, t.root, target, i);
    crate::swap::lemma_listed_not_floating(t, target);
    let w = NodeKey { id: t.next_key };
    assert(!t.has(w)) by {
        if t.has(w) {
            assert(t.nodes.contains_key(w));
        }
    }
    assert(t.flattened_once(target) == t);
    lemma_gathered(t, t.root, w, layout, t.nodes[t.root].layout);
}

/// A layout command on a child of the workspace that is laid out that way already does nothing.
pub proof fn law_layout_the_workspace_has_changes_nothing(t: Tree, target: NodeKey, i: int)
    requires
        t.wf(),
        t.sits(target, t.root, i),
    ensures
        t.layout_commanded(t.nodes[t.root].layout, target) == (t, false),
{
    reveal(Tree::flattened_once);
    reveal(Tree::laid);
    lemma_slot(t, t.root, target, i);
    crate::swap::lemma_listed_not_floating(t, target);
    assert(t.flattened_once(target) == t);
}

/// `split none` on a node alone in its container, which stands in a list with others or in the
/// workspace: the node takes the place of the container, which is gone.
pub proof fn law_split_none_puts_the_node_in_place_of_its_container(
    t: Tree,
    target: NodeKey,
    con: NodeKey,
    p: NodeKey,
    i: int,
    geometry: crate::tree::FloatingGeometry,
)
    requires
        t.wf(),
        t.sits(target, con, 0),
        t.nodes[con].children.len() == 1,
        t.sits(con, p, i),
        p == t.root || t.nodes[p].children.len() > 1,
    ensures
        ({
            let (u, branch) = t.unsplit(target, geometry);
            &&& branch is Some
            &&& !u.has(con)
            &&& u.has(target)
            &&& u.nodes[p].children == t.nodes[p].children.update(i, target)
        }),
{
    assert(t.is_parent(con) && t.is_parent(p));
    lemma_slot(t, con, target, 0);
    lemma_slot(t, p, con, i);
    crate::swap::lemma_listed_not_floating(t, con);
    assert(t.kids(con) =~= seq![target]);
    crate::links::lemma_hoisted(t, con, target);
    lemma_lineage(t.parents, con);
    lemma_lineage(t.parents, p);
    let chain = crate::tree::lineage(t.parents, con);
    assert(chain[1] == p);
    let a = t.hoisted(con, target);
    let kids = t.nodes[p].children;
    assert(kids.no_duplicates());
    assert(kids.index_of(con) == i) by {
        assert(kids[kids.index_of(con)] == kids[i]);
    }
    let b = a.with_fractions(target, t.fractions_of(con)->0.narrowed());
    lemma_moved_frame(b, con, target);
    crate::links::lemma_fullscreen_moved_keeps(b, con, target);
    let v = t.flattened(con, target);
    assert(b.has(p) && b.has(target));
    assert(p != con);
    assert(target != con);
    let c = b.fullscreen_moved(con, target);
    assert(c.has(p) == b.has(p));
    assert(c.has(target) == b.has(target));
    assert(v.nodes == c.nodes.remove(con));
    assert(v.nodes[p].children == kids.update(i, target));
    assert(v.kids(p).len() == kids.len()) by {
        assert(c.nodes[p].tile is None);
    }
}

/// A container with siblings that is split gets a container of its own around it: that stands where
/// it stood, is laid out as asked and holds it alone; it stays selected.
pub proof fn law_split_of_a_container_encloses_it(
    t: Tree,
    layout: Layout,
    k: NodeKey,
    p: NodeKey,
    i: int,
)
    requires
        t.wf(),
        t.is_split(k),
        t.sits(k, p, i),
        t.nodes[p].children.len() > 1 || switches(t.nodes[p].layout),
        t.next_key < u64::MAX,
    ensures
        ({
            let w = NodeKey { id: t.next_key };
            let u = t.split_commanded(layout, k).0;
            &&& t.split_commanded(layout, k).1
            &&& u.nodes[p].children == t.nodes[p].children.update(i, w)
            &&& u.nodes[w].children == seq![k]
            &&& u.nodes[w].layout == layout
            &&& u.seat.selected == Some(k)
        }),
{
    assert(t.is_parent(p));
    lemma_slot(t, p, k, i);
    crate::swap::lemma_listed_not_floating(t, k);
    let w = NodeKey { id: t.next_key };
    assert(!t.has(w)) by {
        if t.has(w) {
            assert(t.nodes.contains_key(w));
        }
    }
    lemma_wrapped(t, p, k, w, layout, i);
    let u = t.split_commanded(layout, k).0;
    let v = t.wrapped(p, k, w, Tree::asked_for(layout));
    assert(u.nodes == v.nodes && u.seat.selected == Some(k) && t.split_commanded(layout, k).1) by {
        reveal(Tree::container_split);
        reveal(Tree::split_commanded);
        assert(t.kids(p).contains(k));
    }
}

/// Where autotiling lets a window go beside a window with siblings: into a container of that window
/// alone, along its box, after or before it as asked.
pub proof fn law_autotiling_makes_room_for_a_pair(
    t: Tree,
    k: NodeKey,
    after: bool,
    wide: bool,
    p: NodeKey,
    i: int,
)
    requires
        t.wf(),
        t.is_view(k),
        t.sits(k, p, i),
        t.nodes[p].children.len() >= 2,
        t.autotile(k, wide) is Some,
        t.next_key < u64::MAX,
    ensures
        ({
            let w = NodeKey { id: t.next_key };
            let (u, slot) = t.pair_slot(k, after, wide);
            &&& slot == Some((w, if after {
                1int
            } else {
                0
            }))
            &&& u.nodes[p].children == t.nodes[p].children.update(i, w)
            &&& u.nodes[w].children == seq![k]
            &&& u.nodes[w].layout == if wide {
                Layout::SplitH
            } else {
                Layout::SplitV
            }
            &&& u.seat.selected == t.seat.selected
        }),
{
    assert(t.is_parent(p));
    lemma_slot(t, p, k, i);
    let w = NodeKey { id: t.next_key };
    let layout = t.autotile(k, wide)->0;
    law_split_gives_a_window_its_container(t, layout, k, p, i);
    assert(!t.has(w)) by {
        if t.has(w) {
            assert(t.nodes.contains_key(w));
        }
    }
    lemma_wrapped(t, p, k, w, layout, i);
    let u = t.split_commanded(layout, k).0;
    assert(u.parents == t.wrapped(p, k, w, Tree::asked_for(layout)).parents) by {
        reveal(Tree::leaf_split);
        reveal(Tree::split_commanded);
        assert(t.kids(p).contains(k));
    }
    assert(w != p);
}

/// What is flattened for autotiling stands alone in a split below the workspace.
pub proof fn law_only_lone_children_are_flattened(t: Tree, k: NodeKey)
    requires
        t.wf(),
    ensures
        t.lone_child(k) matches Some(c) ==> t.parents.contains_key(c) && t.parents[c] != t.root
            && t.nodes[t.parents[c]].children == seq![c] && divides(t.nodes[t.parents[c]].layout)
            && t.under(c, k),
    decreases crate::tree::room(t.parents, k), t.kids(k).len() + 2,
{
    if k != t.root && t.is_split(k) && t.kids(k).len() == 1 && t.nodes[k].layout.is_split() {
        let c = t.kids(k)[0];
        lemma_slot(t, k, c, 0);
        assert(t.nodes[k].children =~= seq![c]);
        assert(t.under(k, k));
    } else {
        lemma_lone_from(t, k, 0);
    }
}

proof fn lemma_lone_from(t: Tree, k: NodeKey, i: int)
    requires
        t.wf(),
        0 <= i,
    ensures
        t.lone_child_from(k, i) matches Some(c) ==> t.parents.contains_key(c) && t.parents[c]
            != t.root && t.nodes[t.parents[c]].children == seq![c] && divides(
            t.nodes[t.parents[c]].layout,
        ) && t.under(c, k),
    decreases crate::tree::room(t.parents, k), t.kids(k).len() - i + 1,
{
    if i < t.kids(k).len() {
        let c = t.kids(k)[i];
        lemma_slot(t, k, c, i);
        crate::tree::lemma_depth(t.parents, c);
        law_only_lone_children_are_flattened(t, c);
        lemma_lone_from(t, k, i + 1);
        assert(t.under(c, k)) by {
            assert(t.under(k, k));
        }
        if t.lone_child(c) is Some {
            crate::tree::lemma_under_trans(t.parents, t.lone_child(c)->0, c, k);
        }
    }
}

/// A cycle of layouts gives the container around the target the layout the cycle leads to, the split
/// of it being the one a toggle would lead to.
pub proof fn law_layout_cycle_sets_the_layout(
    t: Tree,
    con: NodeKey,
    target: NodeKey,
    cycle: Seq<LayoutCycleEntry>,
)
    requires
        t.governs(con, target),
        cycle.len() > 0,
    ensures
        ({
            let split = t.split_toggled(target).0.nodes[con].layout;
            let u = t.layout_cycled(target, cycle).0;
            match cycled(cycle, t.nodes[con].layout, split) {
                Some(layout) => t.relaid(u, con) && u.nodes[con].layout == layout && layout
                    != t.nodes[con].layout,
                None => u == t,
            }
        }),
{
    lemma_governs(t, con, target);
    let split = t.toggled_split(t.nodes[con].layout, Some(con));
    assert(t.toggled_to(split, con, target).0 == t.explicit_commanded(con, split));
    law_cycle_leads_elsewhere(cycle, t.nodes[con].layout, split);
    if cycled(cycle, t.nodes[con].layout, split) is Some {
        let layout = cycled(cycle, t.nodes[con].layout, split)->0;
        assert(t.toggled_to(layout, con, target).0 == t.explicit_commanded(con, layout));
    }
}

} // verus!
