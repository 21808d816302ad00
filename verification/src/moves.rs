//! Where a move in a direction puts a node.

use crate::axis::{Direction, Layout, NodeKey};
use crate::bearings::{lemma_neighbour, lemma_unlisted, runs, sign};
use crate::movement::{lemma_exchanged, lemma_gathered, lemma_reordered, lemma_route, Route};
use crate::tidying::{
    in_step, lemma_reap_tidies, lemma_squash_tidies, lemma_tidied_same, lemma_tidied_trans, runs_on,
};
use crate::tree::{
    depth, lemma_active, lemma_depth, lemma_lineage, lemma_linked_at, lemma_under_chain,
    lemma_under_depth, lemma_under_trans, lemma_unlinked, lemma_with_node, lemma_with_seat, lineage,
    room, Tree,
};
use crate::walk::lemma_slot;
use vstd::prelude::*;

verus! {

// ---------------------------------------------------------------------------------------------
// Where a move leads
// ---------------------------------------------------------------------------------------------

impl Tree {
    /// Whether a move of `node` is decided at `c`: at the node itself if something lies beside
    /// it, else at the nearest node above it that stands in a list along the direction.
    pub open spec fn decides(self, node: NodeKey, c: NodeKey, d: Direction) -> bool {
        &&& self.under(node, c)
        &&& exists|p: NodeKey, i: int| #[trigger]
            self.sits(c, p, i) && runs(self.nodes[p].layout, d)
        &&& c == node ==> !self.at_the_edge(c, d)
        &&& c != node ==> self.at_the_edge(node, d)
        &&& forall|b: NodeKey, p: NodeKey, i: int|
            #[trigger] self.under(node, b) && self.under(b, c) && b != c && b != node
                && #[trigger] self.sits(b, p, i) ==> !runs(self.nodes[p].layout, d)
    }

    /// Whether a node hangs off another inside its branch.
    pub open spec fn inner(self, k: NodeKey) -> bool {
        self.parents.contains_key(k) && !self.is_floating(k)
    }

    /// Whether `node` stands right beside `x` in the list of `p`, on the far side of it as seen
    /// from where a direction comes from; unless one of the three is gone.
    pub open spec fn past(self, p: NodeKey, x: NodeKey, node: NodeKey, d: Direction) -> bool {
        self.has(p) && self.has(x) && self.has(node) ==> if sign(d) > 0 {
            runs_on(self.nodes[p].children, x, node)
        } else {
            runs_on(self.nodes[p].children, node, x)
        }
    }

    /// Whether `node` stands right beside `x` in the list of `p`, on the near side of it as seen
    /// from where a direction comes from; unless one of the three is gone.
    pub open spec fn short_of(self, p: NodeKey, x: NodeKey, node: NodeKey, d: Direction) -> bool {
        self.has(p) && self.has(x) && self.has(node) ==> if sign(d) > 0 {
            runs_on(self.nodes[p].children, node, x)
        } else {
            runs_on(self.nodes[p].children, x, node)
        }
    }

    /// Whether `node` is at the end of the list of `p` that a direction comes to first; unless
    /// one of the two is gone.
    pub open spec fn near_end(self, p: NodeKey, node: NodeKey, d: Direction) -> bool {
        self.has(p) && self.has(node) ==> self.sits(
            node,
            p,
            if sign(d) > 0 {
                0
            } else {
                self.nodes[p].children.len() - 1
            },
        )
    }

    /// Whether two children of `p` have changed places and everything else is as it was.
    pub open spec fn exchanged(self, u: Tree, p: NodeKey, i: int, j: int) -> bool {
        let (a, b) = (self.nodes[p].children, u.nodes[p].children);
        &&& u.nodes == self.nodes.insert(p, self.nodes[p].with_children(b))
        &&& a.len() == b.len()
        &&& b[i] == a[j]
        &&& b[j] == a[i]
        &&& forall|n: int| 0 <= n < a.len() && n != i && n != j ==> #[trigger] b[n] == a[n]
    }
}

/// What decides the way of a move, as it is read going up.
proof fn lemma_way(t: Tree, node: NodeKey, current: NodeKey, d: Direction)
    requires
        t.wf(),
        t.has(node),
        t.under(node, current),
        current != node ==> t.at_the_edge(node, d),
        forall|b: NodeKey, p: NodeKey, i: int|
            #[trigger] t.under(node, b) && t.under(b, current) && b != current && b != node
                && #[trigger] t.sits(b, p, i) ==> !runs(t.nodes[p].layout, d),
    ensures
        match t.route(node, current, d) {
            Route::Into(x) => exists|c: NodeKey| #[trigger]
                t.decides(node, c, d) && t.beside(c, d, x),
            Route::Beside(c) => c != node && t.decides(node, c, d) && t.at_the_edge(c, d),
            _ => true,
        },
    decreases depth(t.parents, current),
{
    if t.inner_parent(current) is Some && t.is_parent(t.parents[current]) {
        let p = t.parents[current];
        lemma_depth(t.parents, current);
        assert(t.under(current, p)) by {
            assert(t.under(p, p));
        }
        lemma_under_trans(t.parents, node, current, p);
        if t.slot_of(current) is Some {
            lemma_neighbour(t, current, d);
        }
        let along = t.nodes[p].layout.parallel(d);
        assert(along == runs(t.nodes[p].layout, d));
        if !along {
            lemma_unlisted(t, current, d);
        }
        let edge = !along || t.slot_of(current) is None || d.step(
            t.kids(p).index_of(current),
            t.kids(p).len() as int,
        ) is None;
        assert(t.nodes[p].children.contains(current)) by {
            assert(t.parents.contains_key(current));
        }
        assert(t.slot_of(current) is Some);
        let i = t.kids(p).index_of(current);
        assert(t.sits(current, p, i));
        if along && !edge {
            let n = i + sign(d);
            assert(t.sits(t.kids(p)[n], p, i + sign(d)));
            assert(t.beside(current, d, t.kids(p)[n]));
            assert(t.decides(node, current, d));
        } else {
            assert(t.at_the_edge(current, d)) by {
                if along {
                    assert forall|x: NodeKey| !#[trigger] t.beside(current, d, x) by {}
                }
            }
            if along && current != node {
                assert(t.decides(node, current, d));
            } else if t.inner_parent(p) is Some {
                assert(p != node) by {
                    lemma_under_depth(t.parents, node, p);
                    lemma_under_depth(t.parents, node, current);
                }
                assert(t.at_the_edge(node, d));
                assert forall|b: NodeKey, q: NodeKey, j: int|
                    #[trigger] t.under(node, b) && t.under(b, p) && b != p && b != node
                        && #[trigger] t.sits(b, q, j) implies !runs(t.nodes[q].layout, d) by {
                    lemma_between(t, node, current, b);
                    if b == current {
                        assert(q == p);
                    }
                }
                lemma_way(t, node, p, d);
            }
        }
    }
}

/// What is above a node and below the parent of one of its ancestors is below that ancestor.
pub(crate) proof fn lemma_between(t: Tree, node: NodeKey, current: NodeKey, b: NodeKey)
    requires
        t.wf(),
        t.under(node, current),
        t.parents.contains_key(current),
        t.under(node, b),
        t.under(b, t.parents[current]),
        b != t.parents[current],
    ensures
        t.under(b, current),
{
    lemma_under_chain(t.parents, node, current, b);
    assert(t.under(current, current));
    if t.under(current, b) && b != current {
        let p = t.parents[current];
        assert(t.under(p, b));
        lemma_under_depth(t.parents, p, b);
        lemma_under_depth(t.parents, b, p);
    }
}

/// The place a move puts a node in before anything is tidied up.
proof fn lemma_put(t: Tree, node: NodeKey, p: NodeKey, at: int)
    requires
        t.wf(),
        t.parents.contains_key(node),
        !t.is_floating(node),
        t.is_parent(p),
        p != t.parents[node],
        !t.under(p, node),
        0 <= at <= t.nodes[p].children.len(),
    ensures
        ({
            let u = t.reparented(node, p, at);
            &&& u.wf()
            &&& u.root == t.root
            &&& u.nodes[p] == t.nodes[p].with_children(t.nodes[p].children.insert(at, node))
            &&& u.parents == t.parents.insert(node, p)
            &&& forall|x: NodeKey| #[trigger] u.has(x) == t.has(x)
            &&& forall|x: NodeKey|
                t.has(x) ==> (#[trigger] u.nodes[x]) == t.nodes[x].with_children(
                    u.nodes[x].children,
                )
        }),
{
    lemma_unlinked(t, node);
    let a = t.unlinked(node);
    assert(node != t.root);
    assert(!a.under(p, node)) by {
        if a.under(p, node) {
            crate::links::lemma_under_remove(t.parents, node, p, node);
        }
    }
    lemma_linked_at(a, node, p, at);
    assert(t.parents.remove(node).insert(node, p) =~= t.parents.insert(node, p));
}

proof fn lemma_unset_wf(t: Tree, k: NodeKey)
    requires
        t.wf(),
    ensures
        t.unset(k).wf(),
        t.unset(k).parents == t.parents,
        t.unset(k).root == t.root,
        t.unset(k).floating == t.floating,
        t.unset(k).next_key == t.next_key,
        forall|x: NodeKey| #[trigger] t.unset(k).has(x) == t.has(x),
        forall|x: NodeKey| #[trigger]
            t.unset(k).nodes[x].children == t.nodes[x].children && t.unset(k).nodes[x].layout
                == t.nodes[x].layout && t.unset(k).nodes[x].workspace == t.nodes[x].workspace && (
            t.unset(k).nodes[x].tile is Some <==> t.nodes[x].tile is Some),
{
    if t.is_container(k) {
        lemma_with_node(t, k, t.unset(k).nodes[k]);
    }
}

/// An ancestor that a node is put beside.
proof fn lemma_promoted(t: Tree, node: NodeKey, anc: NodeKey, d: Direction)
    requires
        t.wf(),
        t.parents.contains_key(node),
        !t.is_floating(node),
        t.under(node, anc),
        anc != node,
        t.slot_of(anc) is Some,
    ensures
        ({
            let u = t.promoted(node, anc, d);
            &&& u.wf()
            &&& u.past(t.parents[anc], anc, node, d)
            &&& forall|x: NodeKey| #[trigger] u.has(x) ==> t.has(x)
            &&& forall|x: NodeKey| #[trigger] t.is_view(x) ==> u.is_view(x)
            &&& forall|x: NodeKey| u.has(x) ==> (#[trigger] u.nodes[x]).layout == t.nodes[x].layout
        }),
{
    reveal(Tree::promoted);
    let from = t.parents[node];
    let p = t.parents[anc];
    lemma_neighbour(t, anc, d);
    let kids = t.nodes[p].children;
    let idx = kids.index_of(anc);
    let at = if d.leading() {
        idx
    } else {
        idx + 1
    };
    lemma_depth(t.parents, anc);
    lemma_depth(t.parents, node);
    assert(t.under(from, anc));
    lemma_under_depth(t.parents, from, anc);
    lemma_under_depth(t.parents, node, anc);
    assert(!t.under(p, node)) by {
        if t.under(p, node) {
            lemma_under_depth(t.parents, p, node);
        }
    }
    lemma_put(t, node, p, at);
    let a = t.reparented(node, p, at);
    lemma_unset_wf(a, anc);
    let b = a.unset(anc);
    let list = kids.insert(at, node);
    assert(b.nodes[p].children == list);
    if d.leading() {
        assert(list[idx] == node && list[idx + 1] == anc);
        assert(runs_on(list, node, anc));
    } else {
        assert(list[idx] == anc && list[idx + 1] == node);
        assert(runs_on(list, anc, node));
    }
    lemma_lineage(b.parents, from);
    lemma_reap_tidies(b, lineage(b.parents, from));
    let c = b.reaped(from);
    let branch = b.branch(p);
    lemma_squash_tidies(c, branch, 0, c.kids(branch).len(), room(c.parents, branch));
    let u = c.squashed(branch);
    lemma_tidied_trans(b, c, u);
    assert(u == t.promoted(node, anc, d));
    assert forall|x: NodeKey| #[trigger] u.has(x) implies t.has(x) by {
        assert(b.has(x));
        assert(a.has(x) == t.has(x));
    }
    assert forall|x: NodeKey| #[trigger] t.is_view(x) implies u.is_view(x) by {
        assert(a.has(x));
        assert(b.has(x));
        assert(b.nodes[x].children == a.nodes[x].children);
        assert(b.is_view(x));
    }
    assert forall|x: NodeKey| u.has(x) implies (#[trigger] u.nodes[x]).layout
        == t.nodes[x].layout by {
        assert(b.has(x));
        assert(b.nodes[x].children == a.nodes[x].children);
        assert(a.nodes[x] == t.nodes[x].with_children(a.nodes[x].children));
    }
    if u.has(p) {
        assert(in_step(b.nodes[p].children, u.nodes[p].children, u.nodes.dom()));
        if u.has(anc) && u.has(node) {
            assert(u.nodes.dom().contains(anc) && u.nodes.dom().contains(node));
        }
    }
}

/// A move that finds nothing beside it where it is decided takes the node out beside the ancestor
/// it climbed to: right after it to the right or down, right before it to the left or up.
pub proof fn law_move_takes_out_on_the_side_it_goes(
    t: Tree,
    node: NodeKey,
    c: NodeKey,
    d: Direction,
)
    requires
        t.wf(),
        t.has(node),
        t.route(node, node, d) == Route::Beside(c),
        t.nodes[t.parents[node]].children.len() > 1 || t.inner(t.parents[node]) && t.inner(
            t.parents[t.parents[node]],
        ),
    ensures
        t.decides(node, c, d),
        c != node,
        t.at_the_edge(c, d),
        t.moved(node, d).1,
        t.moved(node, d).0.past(t.parents[c], c, node, d),
        t.is_view(node) ==> t.moved(node, d).0.is_view(node),
{
    assert(t.under(node, node));
    lemma_self_only(t, node);
    lemma_way(t, node, node, d);
    lemma_route(t, node, node, d);
    lemma_above_linked(t, node, c);
    assert(!t.is_lone_at_top(node)) by {
        assert(t.has(t.parents[node]));
    }
    lemma_promoted(t, node, c, d);
}

/// A node that is the only child of a container standing directly in its branch root is not taken
/// out of it.
pub proof fn law_lone_node_at_the_top_stays(t: Tree, node: NodeKey, c: NodeKey, d: Direction)
    requires
        t.wf(),
        t.has(node),
        t.route(node, node, d) == Route::Beside(c),
        t.nodes[t.parents[node]].children.len() == 1,
        t.inner(t.parents[node]),
        !t.inner(t.parents[t.parents[node]]),
    ensures
        t.moved(node, d) == (t, false),
{
    assert(t.under(node, node));
    lemma_self_only(t, node);
    lemma_way(t, node, node, d);
    lemma_above_linked(t, node, c);
    let p = t.parents[node];
    assert(t.nodes[p].children.contains(node)) by {
        lemma_route(t, node, node, d);
    }
    assert(t.is_parent(p));
}

/// A move that goes nowhere changes nothing.
pub proof fn law_stuck_move_changes_nothing(t: Tree, node: NodeKey, d: Direction)
    ensures
        !t.moved(node, d).1 ==> t.moved(node, d).0 == t,
        t.moved(node, d).1 <==> !(t.route(node, node, d) is Stuck) && !(t.route(node, node, d)
            is Beside && t.is_lone_at_top(node)),
{
}

proof fn lemma_self_only(t: Tree, node: NodeKey)
    requires
        t.wf(),
    ensures
        forall|b: NodeKey| #[trigger] t.under(node, b) && t.under(b, node) ==> b == node,
{
    assert forall|b: NodeKey| #[trigger] t.under(node, b) && t.under(b, node) implies b == node by {
        lemma_under_depth(t.parents, node, b);
        lemma_under_depth(t.parents, b, node);
    }
}

proof fn lemma_above_linked(t: Tree, node: NodeKey, c: NodeKey)
    requires
        t.wf(),
        t.under(node, c),
        node != c,
    ensures
        t.parents.contains_key(node),
{
}

/// A branch that has to turn gets the layout along the direction, everything it held stands
/// together in one container with the former layout, and the node beside that container: after it
/// to the right or down, before it to the left or up.
pub proof fn law_move_turns_the_branch(t: Tree, node: NodeKey, p: NodeKey, d: Direction)
    requires
        t.wf(),
        t.has(node),
        t.next_key < u64::MAX,
        t.route(node, node, d) == Route::Turn(p),
    ensures
        ({
            let w = NodeKey { id: t.next_key };
            let u = t.moved(node, d).0;
            &&& t.moved(node, d).1
            &&& !runs(t.nodes[p].layout, d)
            &&& t.under(node, p)
            &&& u.past(p, w, node, d)
            &&& u.has(p) ==> u.nodes[p].layout == match d {
                Direction::Left | Direction::Right => Layout::SplitH,
                Direction::Up | Direction::Down => Layout::SplitV,
            }
            &&& u.has(w) ==> u.nodes[w].layout == t.nodes[p].layout
            &&& t.is_view(node) ==> u.is_view(node)
        }),
{
    assert(t.under(node, node));
    lemma_route(t, node, node, d);
    lemma_turns(t, node, node, d);
    let w = NodeKey { id: t.next_key };
    let (inner, outer) = (t.nodes[p].layout, d.along());
    assert(!t.has(w)) by {
        if t.has(w) {
            assert(t.nodes.contains_key(w));
        }
    }
    lemma_gathered(t, p, w, inner, outer);
    let a = t.gathered(p, w, inner, outer);
    lemma_unset_wf(a, node);
    let b = a.unset(node);
    lemma_above_linked(t, node, p);
    assert(b.parents.contains_key(node));
    assert(a.floating == t.floating);
    assert(!b.is_floating(node));
    assert forall|x: NodeKey| #[trigger] t.parents.contains_key(x) implies a.parents.contains_key(x)
        && a.parents[x] == (if t.nodes[p].children.contains(x) {
        w
    } else {
        t.parents[x]
    }) by {
        assert(t.gathered(p, w, inner, outer).parents.contains_key(x));
    }
    lemma_gathered_above(t, a, p, w, node);
    assert(b.under(node, w));
    assert(w != node);
    assert(b.slot_of(w) is Some) by {
        assert(b.nodes[p].children == a.nodes[p].children);
        assert(b.nodes[p].children[0] == w);
        assert(b.has(p));
        assert(b.kids(p) == b.nodes[p].children);
    }
    lemma_promoted(b, node, w, d);
    let u = b.promoted(node, w, d);
    assert(b.nodes[p].children == a.nodes[p].children);
    assert(b.nodes[w].children == a.nodes[w].children);
    if t.is_view(node) {
        assert(node != p);
        assert(a.nodes[node].tile is Some);
        assert(b.nodes[node].children == a.nodes[node].children);
        assert(b.has(node) == a.has(node));
        assert(b.is_view(node));
    }
    if u.has(p) {
        assert(u.nodes[p].layout == b.nodes[p].layout);
    }
    if u.has(w) {
        assert(u.nodes[w].layout == b.nodes[w].layout);
    }
}

/// A branch turns whenever it has to: when its root does not run along the direction, nothing lies
/// beside the node, and no container on the way up stands in a list that runs along.
pub proof fn law_branch_turns_when_it_has_to(t: Tree, node: NodeKey, p: NodeKey, d: Direction)
    requires
        t.wf(),
        t.has(node),
        t.under(node, p),
        node != p,
        !t.inner(p),
        t.at_the_edge(node, d),
        !runs(t.nodes[p].layout, d),
        forall|b: NodeKey| #[trigger] t.under(node, b) && t.under(b, p) && b != p ==> t.inner(b),
        forall|b: NodeKey, q: NodeKey, i: int|
            #[trigger] t.under(node, b) && t.under(b, p) && b != p && b != node && #[trigger] t.sits(
                b,
                q,
                i,
            ) ==> !runs(t.nodes[q].layout, d),
    ensures
        t.route(node, node, d) == Route::Turn(p),
{
    assert(t.under(node, node));
    lemma_reaches_the_root(t, node, node, p, d);
}

#[verifier::spinoff_prover]
proof fn lemma_reaches_the_root(
    t: Tree,
    node: NodeKey,
    current: NodeKey,
    p: NodeKey,
    d: Direction,
)
    requires
        t.wf(),
        t.has(node),
        t.under(node, current),
        t.under(current, p),
        current != p,
        !t.inner(p),
        t.at_the_edge(node, d),
        !runs(t.nodes[p].layout, d),
        forall|b: NodeKey| #[trigger] t.under(node, b) && t.under(b, p) && b != p ==> t.inner(b),
        forall|b: NodeKey, q: NodeKey, i: int|
            #[trigger] t.under(node, b) && t.under(b, p) && b != p && b != node && #[trigger] t.sits(
                b,
                q,
                i,
            ) ==> !runs(t.nodes[q].layout, d),
    ensures
        t.route(node, current, d) == Route::Turn(p),
    decreases depth(t.parents, current),
{
    assert(t.inner(current));
    let q = t.parents[current];
    assert(t.nodes[q].children.contains(current));
    assert(t.nodes[q].children.len() > 0);
    assert(t.is_parent(q));
    assert(t.slot_of(current) is Some);
    lemma_neighbour(t, current, d);
    lemma_depth(t.parents, current);
    let i = t.kids(q).index_of(current);
    assert(t.sits(current, q, i));
    assert(t.under(q, p));
    assert(t.under(current, q)) by {
        assert(t.under(q, q));
    }
    lemma_under_trans(t.parents, node, current, q);
    if runs(t.nodes[q].layout, d) {
        assert(current == node);
        assert(q != p);
        assert(t.inner(q));
        if d.step(i, t.kids(q).len() as int) is Some {
            let n = i + sign(d);
            assert(t.sits(t.kids(q)[n], q, i + sign(d)));
            assert(t.beside(node, d, t.kids(q)[n]));
        }
        lemma_reaches_the_root(t, node, q, p, d);
    } else if q != p {
        assert(t.inner(q));
        lemma_reaches_the_root(t, node, q, p, d);
    }
}

/// The root that has to turn does not run along the direction.
proof fn lemma_turns(t: Tree, node: NodeKey, current: NodeKey, d: Direction)
    requires
        t.wf(),
        t.route(node, current, d) is Turn,
    ensures
        t.route(node, current, d) matches Route::Turn(p) && !runs(t.nodes[p].layout, d),
        forall|x: NodeKey|
            #[trigger] t.under(current, x) && t.under(x, t.route(node, current, d)->Turn_0) && x
                != t.route(node, current, d)->Turn_0 ==> !t.is_floating(x),
    decreases depth(t.parents, current),
{
    let p = t.parents[current];
    lemma_depth(t.parents, current);
    let top = t.route(node, current, d)->Turn_0;
    assert(!t.is_floating(current));
    assert forall|x: NodeKey| #[trigger] t.under(current, x) && x != current implies t.under(
        p,
        x,
    ) by {}
    if top == p {
        assert forall|x: NodeKey| t.under(p, x) && t.under(x, p) implies x == p by {
            lemma_under_depth(t.parents, p, x);
            lemma_under_depth(t.parents, x, p);
        }
    }
    if !t.nodes[p].layout.parallel(d) {
        if t.inner_parent(p) is Some {
            lemma_turns(t, node, p, d);
        }
    } else if t.slot_of(current) is Some && d.step(
        t.kids(p).index_of(current),
        t.kids(p).len() as int,
    ) is None {
        lemma_turns(t, node, p, d);
    }
}

/// What was below a node is below the container that took over its children.
proof fn lemma_gathered_above(t: Tree, a: Tree, p: NodeKey, w: NodeKey, node: NodeKey)
    requires
        t.wf(),
        a.wf(),
        t.under(node, p),
        node != p,
        !t.has(w),
        t.has(p),
        forall|x: NodeKey| #[trigger]
            t.parents.contains_key(x) ==> a.parents.contains_key(x) && a.parents[x] == (
            if t.nodes[p].children.contains(x) {
                w
            } else {
                t.parents[x]
            }),
        forall|x: NodeKey|
            #[trigger] t.under(node, x) && t.under(x, p) && x != p ==> !t.is_floating(x),
    ensures
        a.under(node, w),
        node != w,
    decreases depth(t.parents, node),
{
    lemma_depth(t.parents, node);
    let q = t.parents[node];
    assert(t.has(node));
    assert(a.parents.contains_key(node));
    assert(a.under(w, w));
    if q == p {
        assert(t.nodes[p].children.contains(node)) by {
            assert(t.under(node, node));
        }
    } else {
        assert(!t.nodes[p].children.contains(node)) by {
            if t.nodes[p].children.contains(node) {
                let i = choose|i: int|
                    0 <= i < t.nodes[p].children.len() && t.nodes[p].children[i] == node;
                assert(t.parents[t.nodes[p].children[i]] == p);
            }
        }
        assert(t.under(q, p));
        assert forall|x: NodeKey|
            #[trigger] t.under(q, x) && t.under(x, p) && x != p implies !t.is_floating(x) by {
            assert(t.under(node, x));
        }
        lemma_gathered_above(t, a, p, w, q);
    }
}

impl Tree {
    /// What `node` moved in with `l` comes to: it changes places with a window of its own list,
    /// stands short of a window of another list, or is at the near end of a container that runs
    /// along the direction.
    pub open spec fn met(self, u: Tree, node: NodeKey, l: NodeKey, d: Direction) -> bool {
        if self.is_view(l) {
            if self.parents[l] == self.parents[node] {
                exists|p: NodeKey, i: int, j: int|
                    #[trigger] self.sits(node, p, i) && #[trigger] self.sits(l, p, j)
                        && self.exchanged(u, p, i, j)
            } else {
                u.short_of(self.parents[l], l, node, d)
            }
        } else {
            runs(self.nodes[l].layout, d) && u.near_end(l, node, d)
        }
    }
}

/// What moving in with a node leads to.
#[verifier::spinoff_prover]
#[verifier::rlimit(40)]
proof fn lemma_moved_into(t: Tree, node: NodeKey, dest: NodeKey, d: Direction)
    requires
        t.wf(),
        t.parents.contains_key(node),
        !t.is_floating(node),
        t.parents.contains_key(dest),
        !t.is_floating(dest),
        !t.under(dest, node),
        !t.under(node, dest),
        t.leaf_under(dest) is Some,
    ensures
        t.moved_into(node, dest, d).wf(),
        forall|x: NodeKey| #[trigger] t.is_view(x) ==> t.moved_into(node, dest, d).is_view(x),
        exists|l: NodeKey|
            {
                &&& #[trigger] t.under(l, dest)
                &&& t.leaf_under(l) == t.leaf_under(dest)
                &&& t.met(t.moved_into(node, dest, d), node, l, d)
            },
    decreases room(t.parents, dest),
{
    reveal(Tree::moved_into);
    let u = t.moved_into(node, dest, d);
    assert(t.under(dest, dest));
    assert(t.slot_of(node) is Some) by {
        assert(t.nodes[t.parents[node]].children.contains(node));
        assert(t.nodes[t.parents[node]].children.len() > 0);
    }
    assert(t.slot_of(dest) is Some) by {
        assert(t.nodes[t.parents[dest]].children.contains(dest));
        assert(t.nodes[t.parents[dest]].children.len() > 0);
    }
    lemma_neighbour(t, node, d);
    lemma_neighbour(t, dest, d);
    if t.is_view(dest) {
        let p = t.parents[dest];
        let kids = t.nodes[p].children;
        let idx = kids.index_of(dest);
        if t.parent(node) == Some(p) {
            let i = kids.index_of(node);
            lemma_exchanged(kids, i, idx);
            let list = kids.update(i, dest).update(idx, node);
            assert(u == t.with_children(p, list));
            lemma_reordered(t, p, list);
            assert(t.sits(node, p, i) && t.sits(dest, p, idx));
            assert(t.exchanged(u, p, i, idx));
        } else {
            let at = if d.leading() {
                idx + 1
            } else {
                idx
            };
            assert(!t.under(p, node)) by {
                if t.under(p, node) {
                    assert(t.under(dest, node));
                }
            }
            lemma_put(t, node, p, at);
            let a = t.reparented(node, p, at);
            lemma_unset_wf(a, node);
            let b = a.unset(node);
            let branch = t.branch(p);
            lemma_squash_tidies(b, branch, 0, b.kids(branch).len(), room(b.parents, branch));
            assert(u == b.squashed(branch));
            let list = kids.insert(at, node);
            assert(b.nodes[p].children == a.nodes[p].children);
            if d.leading() {
                assert(list[idx] == dest && list[idx + 1] == node);
                assert(runs_on(list, dest, node));
            } else {
                assert(list[idx] == node && list[idx + 1] == dest);
                assert(runs_on(list, node, dest));
            }
            if u.has(p) {
                assert(in_step(b.nodes[p].children, u.nodes[p].children, u.nodes.dom()));
                if u.has(dest) && u.has(node) {
                    assert(u.nodes.dom().contains(dest) && u.nodes.dom().contains(node));
                }
            }
            lemma_views_stay(t, a, b, u);
        }
        assert(t.met(u, node, dest, d));
    } else if t.nodes[dest].layout.parallel(d) {
        let kids = t.nodes[dest].children;
        let at = if d.leading() {
            kids.len() as int
        } else {
            0
        };
        assert(dest != t.parents[node]) by {
            if dest == t.parents[node] {
                assert(t.under(node, dest));
            }
        }
        lemma_put(t, node, dest, at);
        let a = t.reparented(node, dest, at);
        lemma_unset_wf(a, node);
        let b = a.unset(node);
        let branch = t.branch(dest);
        lemma_squash_tidies(b, branch, 0, b.kids(branch).len(), room(b.parents, branch));
        assert(u == b.squashed(branch));
        let list = kids.insert(at, node);
        assert(b.nodes[dest].children == a.nodes[dest].children);
        assert(list[at] == node);
        if u.has(dest) {
            assert(in_step(b.nodes[dest].children, u.nodes[dest].children, u.nodes.dom()));
            if u.has(node) {
                assert(u.nodes.dom().contains(node));
            }
        }
        lemma_views_stay(t, a, b, u);
        assert(t.met(u, node, dest, d));
    } else {
        let c = t.active(dest)->0;
        lemma_active(t, dest);
        lemma_depth(t.parents, c);
        crate::walk::lemma_active_listed(t, dest);
        assert(t.under(c, dest));
        assert(!t.under(c, node)) by {
            if t.under(c, node) {
                lemma_under_chain(t.parents, c, dest, node);
            }
        }
        assert(!t.under(node, c)) by {
            if t.under(node, c) {
                lemma_under_trans(t.parents, node, c, dest);
            }
        }
        crate::swap::lemma_listed_not_floating(t, c);
        lemma_moved_into(t, node, c, d);
        let l = choose|l: NodeKey|
            {
                &&& #[trigger] t.under(l, c)
                &&& t.leaf_under(l) == t.leaf_under(c)
                &&& t.met(t.moved_into(node, c, d), node, l, d)
            };
        lemma_under_trans(t.parents, l, c, dest);
        assert(t.under(l, dest));
    }
}

proof fn lemma_views_stay(t: Tree, a: Tree, b: Tree, u: Tree)
    requires
        forall|x: NodeKey| #[trigger] a.has(x) == t.has(x),
        forall|x: NodeKey|
            t.has(x) ==> (#[trigger] a.nodes[x]) == t.nodes[x].with_children(a.nodes[x].children),
        forall|x: NodeKey| #[trigger] b.has(x) == a.has(x),
        forall|x: NodeKey| (#[trigger] b.nodes[x]).tile is Some <==> a.nodes[x].tile is Some,
        b.tidied(u),
    ensures
        forall|x: NodeKey| #[trigger] t.is_view(x) ==> u.is_view(x),
{
    assert forall|x: NodeKey| #[trigger] t.is_view(x) implies u.is_view(x) by {
        assert(a.has(x) == t.has(x));
        assert(b.has(x) == a.has(x));
        assert(a.nodes[x].tile is Some);
        assert(b.nodes[x].tile is Some);
        assert(b.is_view(x));
    }
}

/// A move that finds something beside the node that decides it takes the node in with that: with
/// the window most recently focused in it, on the side the node comes from, or at the near end of
/// a container that runs along the direction. Where that window is a sibling of the node the two
/// change places.
pub proof fn law_move_goes_in_from_the_side_it_comes(
    t: Tree,
    node: NodeKey,
    x: NodeKey,
    d: Direction,
)
    requires
        t.wf(),
        t.has(node),
        t.route(node, node, d) == Route::Into(x),
        t.leaf_under(x) is Some,
    ensures
        exists|c: NodeKey| #[trigger] t.decides(node, c, d) && t.beside(c, d, x),
        t.moved(node, d).1,
        forall|w: NodeKey| #[trigger] t.is_view(w) ==> t.moved(node, d).0.is_view(w),
        exists|l: NodeKey|
            {
                &&& #[trigger] t.under(l, x)
                &&& t.leaf_under(l) == t.leaf_under(x)
                &&& t.met(t.moved(node, d).0, node, l, d)
            },
{
    assert(t.under(node, node));
    lemma_self_only(t, node);
    lemma_way(t, node, node, d);
    lemma_route(t, node, node, d);
    let c = choose|c: NodeKey| #[trigger] t.decides(node, c, d) && t.beside(c, d, x);
    let (p, i) = choose|p: NodeKey, i: int| #[trigger]
        t.sits(c, p, i) && runs(t.nodes[p].layout, d) && t.sits(x, p, i + sign(d));
    assert(t.nodes[p].children.contains(x)) by {
        assert(t.nodes[p].children[i + sign(d)] == x);
    }
    assert(t.parents[t.nodes[p].children[i + sign(d)]] == p);
    assert(t.parents[t.nodes[p].children[i]] == p);
    assert(!t.is_floating(x)) by {
        if t.is_floating(x) {
            let n = choose|n: int| 0 <= n < t.floating.len() && #[trigger] t.floating[n].key == x;
            assert(!t.nodes[t.root].children.contains(t.floating[n].key));
            assert(t.parents[t.floating[n].key] == t.root);
        }
    }
    assert(t.parents.contains_key(node)) by {
        if c == node {
            assert(t.parents.contains_key(t.nodes[p].children[i]));
        }
    }
    lemma_moved_into(t, node, x, d);
}

/// Two windows side by side change places when one is moved toward the other, and nothing else
/// changes.
pub proof fn law_neighbouring_windows_change_places(
    t: Tree,
    node: NodeKey,
    x: NodeKey,
    d: Direction,
    p: NodeKey,
    i: int,
)
    requires
        t.wf(),
        t.sits(node, p, i),
        runs(t.nodes[p].layout, d),
        t.sits(x, p, i + sign(d)),
        t.is_view(x),
    ensures
        t.moved(node, d).1,
        t.exchanged(t.moved(node, d).0, p, i, i + sign(d)),
{
    let kids = t.nodes[p].children;
    assert(t.is_parent(p));
    lemma_slot(t, p, node, i);
    lemma_slot(t, p, x, i + sign(d));
    crate::swap::lemma_listed_not_floating(t, node);
    lemma_neighbour(t, node, d);
    assert(t.route(node, node, d) == Route::Into(x));
    reveal(Tree::moved_into);
    let list = kids.update(i, x).update(i + sign(d), node);
    assert(kids.index_of(x) == i + sign(d));
    assert(t.moved(node, d).0 == t.with_children(p, list));
}

/// A move is decided wherever it can be: with something beside the node that decides it, it goes
/// in with that; with nothing, out beside it.
pub proof fn law_move_goes_where_it_can(t: Tree, node: NodeKey, c: NodeKey, d: Direction)
    requires
        t.wf(),
        t.has(node),
        t.decides(node, c, d),
        forall|b: NodeKey| #[trigger] t.under(node, b) && t.under(b, c) ==> !t.is_floating(b),
    ensures
        match t.route(node, node, d) {
            Route::Into(x) => t.beside(c, d, x),
            Route::Beside(b) => b == c && t.at_the_edge(c, d) && c != node,
            _ => false,
        },
{
    assert(t.under(node, node));
    lemma_finds_way(t, node, node, c, d);
}

#[verifier::spinoff_prover]
proof fn lemma_finds_way(t: Tree, node: NodeKey, current: NodeKey, c: NodeKey, d: Direction)
    requires
        t.wf(),
        t.has(node),
        t.under(node, current),
        t.under(current, c),
        t.decides(node, c, d),
        forall|b: NodeKey| #[trigger] t.under(node, b) && t.under(b, c) ==> !t.is_floating(b),
    ensures
        match t.route(node, current, d) {
            Route::Into(x) => t.beside(c, d, x),
            Route::Beside(b) => b == c && t.at_the_edge(c, d) && c != node,
            _ => false,
        },
    decreases depth(t.parents, current),
{
    let (q, j) = choose|p: NodeKey, i: int| #[trigger]
        t.sits(c, p, i) && runs(t.nodes[p].layout, d);
    assert(t.is_parent(q)) by {
        assert(t.nodes[q].children.len() > 0);
    }
    lemma_slot(t, q, c, j);
    assert(!t.is_floating(current));
    assert(t.parents.contains_key(current));
    let p = t.parents[current];
    assert(t.nodes[p].children.contains(current));
    assert(t.nodes[p].children.len() > 0);
    assert(t.is_parent(p));
    assert(t.slot_of(current) is Some);
    lemma_neighbour(t, current, d);
    lemma_depth(t.parents, current);
    let i = t.kids(p).index_of(current);
    if current == c {
        match d.step(i, t.kids(p).len() as int) {
            Some(n) => {
                assert(t.sits(t.kids(p)[n], p, i + sign(d)));
                assert(t.beside(c, d, t.kids(p)[n]));
            },
            None => {
                assert(t.at_the_edge(c, d));
            },
        }
    } else {
        assert(t.under(p, c));
        assert(t.under(current, p)) by {
            assert(t.under(p, p));
        }
        lemma_under_trans(t.parents, node, current, p);
        assert(t.under(node, p) && t.under(p, c));
        assert(!t.is_floating(p));
        assert(t.parents.contains_key(p));
        if current == node {
            assert(t.at_the_edge(node, d));
            if runs(t.nodes[p].layout, d) && d.step(i, t.kids(p).len() as int) is Some {
                let n = i + sign(d);
                assert(t.sits(t.kids(p)[n], p, i + sign(d)));
                assert(t.beside(node, d, t.kids(p)[n]));
            }
        } else {
            assert(t.sits(current, p, i));
            assert(!runs(t.nodes[p].layout, d));
        }
        lemma_finds_way(t, node, p, c, d);
    }
}

/// A move command does what the move does: the windows stay, the keyboard is on the window that
/// was moved, or that the moved container leads to, and a moved container that is left is selected.
pub proof fn law_moved_window_keeps_the_keyboard(t: Tree, target: NodeKey, d: Direction)
    requires
        t.move_commanded(d, target).1,
    ensures
        t.moved(target, d).1,
        t.leaf_under(target) is Some && t.move_commanded(d, target).0.is_view(
            t.leaf_under(target)->0,
        ) ==> t.move_commanded(d, target).0.seat.leaf == t.leaf_under(target),
        !t.is_view(target) && t.move_commanded(d, target).0.has(target) ==> t.move_commanded(
            d,
            target,
        ).0.seat.selected == Some(target),
{
}

/// What a move command does to a tree is what the move does, tidied up.
pub proof fn law_move_command_moves(t: Tree, target: NodeKey, d: Direction)
    requires
        t.move_commanded(d, target).1,
        t.moved(target, d).0.wf(),
    ensures
        t.moved(target, d).0.tidied(t.move_commanded(d, target).0),
{
    let u = t.moved(target, d).0;
    let p = t.parents[target];
    lemma_lineage(u.parents, p);
    lemma_reap_tidies(u, lineage(u.parents, p));
    let a = u.reaped(p);
    let v = t.move_commanded(d, target).0;
    lemma_with_seat(a, v.seat);
    lemma_tidied_same(a, v);
    lemma_tidied_trans(u, a, v);
}

} // verus!
