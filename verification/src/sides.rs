//! What holds of the floating side as a whole: what it lists, and how focus goes round it.

use crate::axis::NodeKey;
use crate::leafcache::lemma_with_caches;
use crate::measure::Point;
use crate::space::lemma_dialog_groups;
use crate::steering::lemma_raised;
use crate::swap::lemma_stack_index;
use crate::tile::{TileRequest, WindowId};
use crate::tree::{
    depth, lemma_branch, lemma_branch_step, lemma_depth, lemma_first_of,
    lemma_raised_lineage, lemma_with_seat, FloatingRoot, Pick, Tree,
};
use crate::walk::{law_leaves_are_the_windows_below, lemma_branch_of_float};
use crate::windows::{lemma_same_windows, lemma_windows};
use vstd::prelude::*;

verus! {

impl Tree {
    /// No two windows have the same id.
    pub open spec fn windows_differ(self) -> bool {
        forall|a: NodeKey, b: NodeKey|
            #![trigger self.windows()[a], self.windows()[b]]
            self.windows().contains_key(a) && self.windows().contains_key(b)
                && self.windows()[a] == self.windows()[b] ==> a == b
    }

    /// No two groups have the same id.
    pub open spec fn groups_differ(self) -> bool {
        forall|i: int, j: int|
            0 <= i < j < self.floating.len() ==> (#[trigger] self.floating[i]).id != (
            #[trigger] self.floating[j]).id
    }

    /// Whether the windows with an id are all on one side.
    pub open spec fn one_sided(self, id: WindowId) -> bool {
        forall|a: NodeKey, b: NodeKey|
            #![trigger self.holding(a), self.holding(b)]
            self.holding(a) == Some(id) && self.holding(b) == Some(id) ==> self.in_float(a)
                == self.in_float(b)
    }

    /// Two or more groups float, each a lone window, and nothing is fullscreen.
    pub open spec fn only_lone_windows_float(self) -> bool {
        &&& self.wf()
        &&& self.windows_differ()
        &&& self.groups_differ()
        &&& self.fullscreen is None
        &&& self.floating.len() >= 2
        &&& forall|i: int|
            0 <= i < self.floating.len() ==> self.is_view((#[trigger] self.floating[i]).key)
    }

    /// The tree after a focus step to the left for each of `nearest`, the group that was measured
    /// as nearest at that step.
    pub open spec fn left_steps(self, nearest: Seq<Option<NodeKey>>) -> Tree
        decreases nearest.len(),
    {
        if nearest.len() == 0 {
            self
        } else {
            self.left_steps(nearest.drop_last()).focus_sideways(true, nearest.last()).0
        }
    }
}

// ---------------------------------------------------------------------------------------------
// What is listed
// ---------------------------------------------------------------------------------------------

proof fn lemma_floating_listed(t: Tree, i: int, k: NodeKey)
    requires
        t.wf(),
        0 <= i,
    ensures
        t.floating_leaves_from(i).contains(k) <==> exists|j: int|
            i <= j < t.floating.len() && t.leaves((#[trigger] t.floating[j]).key).contains(k),
    decreases t.floating.len() - i,
{
    if i < t.floating.len() {
        let front = t.leaves(t.floating[i].key);
        let rest = t.floating_leaves_from(i + 1);
        lemma_floating_listed(t, i + 1, k);
        if front.contains(k) {
            let j = choose|j: int| 0 <= j < front.len() && front[j] == k;
            assert((front + rest)[j] == k);
        }
        if rest.contains(k) {
            let j = choose|j: int| 0 <= j < rest.len() && rest[j] == k;
            assert((front + rest)[front.len() + j] == k);
        }
        if (front + rest).contains(k) {
            let j = choose|j: int| 0 <= j < (front + rest).len() && (front + rest)[j] == k;
            if j < front.len() {
                assert(front[j] == k);
            } else {
                assert(rest[j - front.len()] == k);
            }
        }
    }
}

/// The floating side lists exactly the windows in its groups.
pub proof fn law_floating_windows_are_listed(t: Tree, k: NodeKey)
    requires
        t.wf(),
    ensures
        t.floating_leaves_from(0).contains(k) <==> t.is_view(k) && t.in_float(k),
{
    lemma_floating_listed(t, 0, k);
    if t.floating_leaves_from(0).contains(k) {
        let j = choose|j: int|
            0 <= j < t.floating.len() && t.leaves((#[trigger] t.floating[j]).key).contains(k);
        let f = t.floating[j].key;
        assert(t.is_floating(f));
        lemma_branch_of_float(t, f, f);
        law_leaves_are_the_windows_below(t, f, k);
        lemma_branch_of_float(t, f, k);
    }
    if t.is_view(k) && t.in_float(k) {
        let f = t.branch(k);
        lemma_branch(t, k);
        lemma_branch_of_float(t, f, k);
        law_leaves_are_the_windows_below(t, f, k);
        let j = choose|j: int| 0 <= j < t.floating.len() && #[trigger] t.floating[j].key == f;
        assert(t.leaves(t.floating[j].key).contains(k));
    }
}

/// A window is on the floating side exactly when a listed tile has its id, as long as the windows
/// with that id are on one side.
pub proof fn law_has_window_iff_listed(t: Tree, id: WindowId)
    requires
        t.wf(),
        t.one_sided(id),
    ensures
        t.floating_window(id) is Some <==> exists|i: int|
            0 <= i < t.floating_leaves_from(0).len() && t.nodes[
                #[trigger] t.floating_leaves_from(0)[i]
            ].tile->0.window.id == id,
{
    let listed = t.floating_leaves_from(0);
    lemma_first_of(t, t.seat.order, Pick::Window(id));
    if t.floating_window(id) is Some {
        let k = t.floating_window(id)->0;
        law_floating_windows_are_listed(t, k);
        let i = choose|i: int| 0 <= i < listed.len() && listed[i] == k;
        assert(t.nodes[listed[i]].tile->0.window.id == id);
    }
    if exists|i: int|
        0 <= i < listed.len() && t.nodes[#[trigger] listed[i]].tile->0.window.id == id {
        let i = choose|i: int|
            0 <= i < listed.len() && t.nodes[#[trigger] listed[i]].tile->0.window.id == id;
        let k = listed[i];
        assert(listed.contains(k));
        law_floating_windows_are_listed(t, k);
        assert(t.meets(Pick::Window(id), k));
        assert(t.seat.order.contains(k));
        let j = choose|j: int| 0 <= j < t.seat.order.len() && t.seat.order[j] == k;
        assert(t.meets(Pick::Window(id), t.seat.order[j]));
        let found = t.recent(Pick::Window(id))->0;
        assert(t.holding(found) == Some(id) && t.holding(k) == Some(id));
    }
}

/// The floating side is empty exactly when it lists no tile, and exactly when it has no active
/// window.
pub proof fn law_empty_iff_nothing_active(t: Tree, widths: nat, heights: nat)
    requires
        t.wf(),
        t.floating_sound(widths, heights),
    ensures
        t.floating.len() == 0 <==> t.floating_leaves_from(0).len() == 0,
        t.floating.len() == 0 <==> (t.active_id() is None || t.floating_window(t.active_id()->0)
            is None),
{
    if t.floating.len() == 0 {
        lemma_first_of(t, t.seat.order, Pick::FloatingView);
        assert forall|k: NodeKey| !#[trigger] t.in_float(k) by {}
    } else {
        let id = t.active_id()->0;
        let k = t.floating_window(id)->0;
        lemma_first_of(t, t.seat.order, Pick::Window(id));
        law_floating_windows_are_listed(t, k);
    }
}

// ---------------------------------------------------------------------------------------------
// Going round
// ---------------------------------------------------------------------------------------------

/// A command aimed at a group that is a lone window stands on that window.
proof fn lemma_alone_in_branch(t: Tree, f: NodeKey, k: NodeKey)
    requires
        t.wf(),
        t.is_floating(f),
        t.is_view(f),
        t.branch(k) == f,
    ensures
        k == f,
    decreases depth(t.parents, k),
{
    lemma_branch_of_float(t, f, f);
    if t.parents.contains_key(k) && k != f {
        lemma_depth(t.parents, k);
        lemma_branch_step(t, k);
        assert(t.parents[k] != t.root);
        lemma_alone_in_branch(t, f, t.parents[k]);
        assert(t.nodes[f].children.len() == 0);
        assert(t.nodes[t.parents[k]].children.contains(k));
    }
}

/// Stacks of the same groups.
pub open spec fn same_groups(a: Seq<FloatingRoot>, b: Seq<FloatingRoot>) -> bool {
    &&& a.len() == b.len()
    &&& forall|e: FloatingRoot| #[trigger] a.contains(e) <==> b.contains(e)
}

proof fn lemma_restacked_groups(s: Seq<FloatingRoot>, from: int, to: int)
    requires
        0 <= from < s.len(),
        0 <= to < s.len(),
    ensures
        same_groups(s, s.remove(from).insert(to, s[from])),
{
    let rest = s.remove(from);
    let moved = rest.insert(to, s[from]);
    assert forall|e: FloatingRoot| #[trigger] s.contains(e) <==> moved.contains(e) by {
        if s.contains(e) {
            let i = choose|i: int| 0 <= i < s.len() && s[i] == e;
            if i == from {
                assert(moved[to] == e);
            } else {
                let j = if i < from {
                    i
                } else {
                    i - 1
                };
                assert(rest[j] == e);
                assert(moved[if j < to {
                    j
                } else {
                    j + 1
                }] == e);
            }
        }
        if moved.contains(e) {
            let i = choose|i: int| 0 <= i < moved.len() && moved[i] == e;
            if i == to {
                assert(s[from] == e);
            } else {
                let j = if i < to {
                    i
                } else {
                    i - 1
                };
                assert(rest[j] == e);
                assert(s[if j < from {
                    j
                } else {
                    j + 1
                }] == e);
            }
        }
    }
}

proof fn lemma_raised_to_groups(t: Tree, groups: Seq<int>, to: int)
    requires
        0 <= to,
        forall|i: int|
            0 <= i < groups.len() ==> to + i <= #[trigger] groups[i] && groups[i]
                < t.floating.len(),
    ensures
        same_groups(t.floating, t.raised_to(groups, to).floating),
    decreases groups.len(),
{
    if groups.len() > 0 {
        assert(to + 0 <= groups[0]);
        lemma_restacked_groups(t.floating, groups[0], to);
        let rest = groups.drop_first();
        assert forall|i: int| 0 <= i < rest.len() implies to + 1 + i <= #[trigger] rest[i]
            && rest[i] < t.floating.len() by {
            assert(groups[i + 1] == rest[i]);
        }
        lemma_raised_to_groups(t.restacked(groups[0], to), rest, to + 1);
    }
}

proof fn lemma_raised_groups(t: Tree, idx: int)
    requires
        t.wf(),
        0 <= idx < t.floating.len(),
    ensures
        same_groups(t.floating, t.raised(idx).floating),
{
    lemma_restacked_groups(t.floating, idx, 0);
    let u = t.restacked(idx, 0);
    let seen = u.group_ids(u.floating[0].key);
    lemma_dialog_groups(u, 0, u.floating.len() - 1, seen);
    let groups = u.dialog_groups(0, u.floating.len() - 1, seen);
    assert forall|i: int| 0 <= i < groups.len() implies 0 + i <= #[trigger] groups[i] && groups[i]
        < u.floating.len() by {}
    lemma_raised_to_groups(u, groups, 0);
}

/// A group that is a lone window is where its window is found.
#[verifier::spinoff_prover]
proof fn lemma_lone_group(t: Tree, i: int)
    requires
        t.only_lone_windows_float(),
        0 <= i < t.floating.len(),
    ensures
        ({
            let k = t.floating[i].key;
            let id = t.nodes[k].tile->0.window.id;
            &&& t.is_view(k)
            &&& t.is_floating(k)
            &&& t.branch(k) == k
            &&& t.in_float(k)
            &&& t.recent(Pick::Window(id)) == Some(k)
            &&& t.group_of(id) == Some(i)
            &&& t.position_in(k) == Some(k)
            &&& t.branch_view(k) == Some(k)
        }),
{
    let k = t.floating[i].key;
    let id = t.nodes[k].tile->0.window.id;
    assert(t.is_view(k));
    lemma_stack_index(t, k, i);
    lemma_branch_of_float(t, k, k);
    lemma_first_of(t, t.seat.order, Pick::Window(id));
    assert(t.meets(Pick::Window(id), k));
    assert(t.seat.order.contains(k));
    let j = choose|j: int| 0 <= j < t.seat.order.len() && t.seat.order[j] == k;
    assert(t.meets(Pick::Window(id), t.seat.order[j]));
    let found = t.recent(Pick::Window(id))->0;
    lemma_windows(t, found);
    lemma_windows(t, k);
    assert(t.windows()[found] == t.windows()[k]);
    if t.seat.selected is Some && t.branch(t.seat.selected->0) == k {
        lemma_alone_in_branch(t, k, t.seat.selected->0);
    }
    if t.seat.leaf is Some && t.branch(t.seat.leaf->0) == k {
        lemma_alone_in_branch(t, k, t.seat.leaf->0);
    }
}

/// One of several lone windows is active.
#[verifier::spinoff_prover]
proof fn lemma_lone_active(t: Tree)
    requires
        t.only_lone_windows_float(),
    ensures
        t.active_group() matches Some(i) && 0 <= i < t.floating.len(),
        t.lone_windows_float(),
{
    lemma_lone_group(t, 0);
    lemma_first_of(t, t.seat.order, Pick::FloatingView);
    let f = t.floating[0].key;
    assert(t.meets(Pick::FloatingView, f));
    assert(t.seat.order.contains(f));
    let j = choose|j: int| 0 <= j < t.seat.order.len() && t.seat.order[j] == f;
    assert(t.meets(Pick::FloatingView, t.seat.order[j]));
    let k = t.active_floating()->0;
    assert(t.is_view(k) && t.in_float(k));
    let root = t.branch(k);
    let i = choose|i: int| 0 <= i < t.floating.len() && #[trigger] t.floating[i].key == root;
    assert(t.is_view(t.floating[i].key));
    lemma_alone_in_branch(t, root, k);
    lemma_lone_group(t, i);
    assert(t.active_group() == Some(i));
}

/// Focusing a window leaves a sound tree with the nodes and the stack it had.
proof fn lemma_focused_shape(t: Tree, k: NodeKey)
    requires
        t.wf(),
        t.is_view(k),
    ensures
        t.focused(k).wf(),
        t.focused(k).nodes == t.nodes,
        t.focused(k).floating == t.floating,
        t.focused(k).fullscreen == t.fullscreen,
        t.focused(k).seat.leaf == Some(k),
{
    let u = t.focused(k);
    lemma_raised_lineage(t, k, Some(k), None);
    lemma_with_caches(t.with_seat(u.seat), u.caches);
}

/// Groups in another order are lone windows still.
proof fn lemma_still_lone(t: Tree, u: Tree)
    requires
        t.only_lone_windows_float(),
        u.wf(),
        u.nodes == t.nodes,
        u.fullscreen == t.fullscreen,
        same_groups(t.floating, u.floating),
    ensures
        u.only_lone_windows_float(),
{
    lemma_same_windows(t, u);
    assert forall|i: int| 0 <= i < u.floating.len() implies u.is_view(
        (#[trigger] u.floating[i]).key,
    ) by {
        assert(u.floating.contains(u.floating[i]));
        assert(t.floating.contains(u.floating[i]));
    }
    assert forall|i: int, j: int| 0 <= i < j < u.floating.len() implies (
    #[trigger] u.floating[i]).id != (#[trigger] u.floating[j]).id by {
        assert(t.floating.contains(u.floating[i]));
        assert(t.floating.contains(u.floating[j]));
        let x = choose|x: int| 0 <= x < t.floating.len() && t.floating[x] == u.floating[i];
        let y = choose|y: int| 0 <= y < t.floating.len() && t.floating[y] == u.floating[j];
        assert(u.floating[i].key != u.floating[j].key);
        if x < y {
            assert(t.floating[x].id != t.floating[y].id);
        } else {
            assert(t.floating[y].id != t.floating[x].id);
        }
    }
}

/// Activating a lone window makes its group the active one and leaves the groups as they are, but
/// for their order.
#[verifier::spinoff_prover]
proof fn lemma_lone_activated(t: Tree, target: int)
    requires
        t.only_lone_windows_float(),
        0 <= target < t.floating.len(),
    ensures
        t.group_activated(target).1,
        t.group_activated(target).0.only_lone_windows_float(),
        t.group_activated(target).0.active_root() == Some(t.floating[target].key),
        same_groups(t.floating, t.group_activated(target).0.floating),
{
    let k = t.floating[target].key;
    let id = t.nodes[k].tile->0.window.id;
    lemma_lone_group(t, target);
    lemma_raised(t, target);
    lemma_raised_groups(t, target);
    let a = t.raised(target);
    let b = a.with_seat(a.seat.with_selected(None));
    lemma_with_seat(a, a.seat.with_selected(None));
    assert forall|x: NodeKey| #[trigger] b.holding(x) == t.holding(x) by {}
    lemma_first_window_alike(t, b, t.seat.order, id);
    lemma_focused_shape(b, k);
    let u = b.focused(k);
    assert(u == t.group_activated(target).0);
    lemma_still_lone(t, u);
    assert(t.floating.contains(t.floating[target]));
    let at = choose|i: int| 0 <= i < u.floating.len() && u.floating[i] == t.floating[target];
    lemma_lone_group(u, at);
}

/// Whether `b` is the group one step from `a` round the groups in the order they were made: with
/// `left` the one made last before it, else the one made next after it.
pub open spec fn one_step_round(
    all: Seq<FloatingRoot>,
    a: FloatingRoot,
    b: FloatingRoot,
    left: bool,
) -> bool {
    if left {
        ||| b.id < a.id && forall|e: FloatingRoot| #[trigger]
            all.contains(e) && e.id < a.id ==> e.id <= b.id
        ||| forall|e: FloatingRoot| #[trigger] all.contains(e) ==> a.id <= e.id <= b.id
    } else {
        ||| b.id > a.id && forall|e: FloatingRoot| #[trigger]
            all.contains(e) && e.id > a.id ==> e.id >= b.id
        ||| forall|e: FloatingRoot| #[trigger] all.contains(e) ==> b.id <= e.id <= a.id
    }
}

proof fn lemma_made_previous(t: Tree, a: int, n: int)
    requires
        0 <= a < t.floating.len(),
        0 <= n <= t.floating.len(),
        t.groups_differ(),
    ensures
        match t.made_previous(a, n) {
            Some(i) => 0 <= i < n && t.floating[i].id < t.floating[a].id && forall|j: int|
                0 <= j < n && (#[trigger] t.floating[j]).id < t.floating[a].id ==> t.floating[j].id
                    <= t.floating[i].id,
            None => forall|j: int|
                0 <= j < n ==> (#[trigger] t.floating[j]).id >= t.floating[a].id,
        },
    decreases n,
{
    if n > 0 {
        lemma_made_previous(t, a, n - 1);
        lemma_made_apart(t, n - 1, a);
        if t.made_previous(a, n - 1) is Some {
            lemma_made_apart(t, n - 1, t.made_previous(a, n - 1)->0);
        }
    }
}

proof fn lemma_made_next(t: Tree, a: int, n: int)
    requires
        0 <= a < t.floating.len(),
        0 <= n <= t.floating.len(),
        t.groups_differ(),
    ensures
        match t.made_next(a, n) {
            Some(i) => 0 <= i < n && t.floating[i].id > t.floating[a].id && forall|j: int|
                0 <= j < n && (#[trigger] t.floating[j]).id > t.floating[a].id ==> t.floating[j].id
                    >= t.floating[i].id,
            None => forall|j: int|
                0 <= j < n ==> (#[trigger] t.floating[j]).id <= t.floating[a].id,
        },
    decreases n,
{
    if n > 0 {
        lemma_made_next(t, a, n - 1);
        lemma_made_apart(t, n - 1, a);
        if t.made_next(a, n - 1) is Some {
            lemma_made_apart(t, n - 1, t.made_next(a, n - 1)->0);
        }
    }
}

/// Of two groups the one with the lower id was made before the other.
proof fn lemma_made_apart(t: Tree, a: int, b: int)
    requires
        0 <= a < t.floating.len(),
        0 <= b < t.floating.len(),
        t.groups_differ(),
    ensures
        t.made_before(a, b) <==> t.floating[a].id < t.floating[b].id,
        t.made_before(b, a) <==> t.floating[b].id < t.floating[a].id,
        a != b ==> t.floating[a].id != t.floating[b].id,
{
    if a < b {
        assert(t.floating[a].id != t.floating[b].id);
    } else if b < a {
        assert(t.floating[b].id != t.floating[a].id);
    }
}

proof fn lemma_made_ends(t: Tree, n: int)
    requires
        1 <= n <= t.floating.len(),
        t.groups_differ(),
    ensures
        0 <= t.made_first(n) < n,
        0 <= t.made_last(n) < n,
        forall|j: int|
            0 <= j < n ==> t.floating[t.made_first(n)].id <= (#[trigger] t.floating[j]).id,
        forall|j: int|
            0 <= j < n ==> t.floating[t.made_last(n)].id >= (#[trigger] t.floating[j]).id,
    decreases n,
{
    if n > 1 {
        lemma_made_ends(t, n - 1);
        lemma_made_apart(t, n - 1, t.made_first(n - 1));
        lemma_made_apart(t, n - 1, t.made_last(n - 1));
    }
}

/// The group found in the making order is one step round.
proof fn lemma_in_making_order(t: Tree, a: int, left: bool)
    requires
        0 <= a < t.floating.len(),
        t.floating.len() >= 2,
        t.groups_differ(),
    ensures
        0 <= t.in_making_order(a, left) < t.floating.len(),
        t.in_making_order(a, left) != a,
        one_step_round(t.floating, t.floating[a], t.floating[t.in_making_order(a, left)], left),
{
    let n = t.floating.len() as int;
    lemma_made_previous(t, a, n);
    lemma_made_next(t, a, n);
    lemma_made_ends(t, n);
    let other: int = if a == 0 {
        1
    } else {
        0
    };
    lemma_made_apart(t, a, other);
    assert(t.floating[other].id <= t.floating[t.made_last(n)].id);
    assert(t.floating[other].id >= t.floating[t.made_first(n)].id);
}

/// The group commands on the floating side are aimed at, as an entry of the stack.
pub open spec fn active_entry(t: Tree) -> FloatingRoot {
    t.floating[t.active_group()->0]
}

/// A step sideways over lone windows goes one group round and leaves the groups as they are, but
/// for their order.
#[verifier::spinoff_prover]
proof fn lemma_lone_step(t: Tree, left: bool, nearest: Option<NodeKey>)
    requires
        t.only_lone_windows_float(),
    ensures
        t.focus_sideways(left, nearest).1,
        t.focus_sideways(left, nearest).0.only_lone_windows_float(),
        same_groups(t.floating, t.focus_sideways(left, nearest).0.floating),
        t.floating.contains(active_entry(t)),
        t.floating.contains(active_entry(t.focus_sideways(left, nearest).0)),
        one_step_round(
            t.floating,
            active_entry(t),
            active_entry(t.focus_sideways(left, nearest).0),
            left,
        ),
{
    lemma_lone_active(t);
    let idx = t.active_group()->0;
    lemma_lone_group(t, idx);
    lemma_in_making_order(t, idx, left);
    let target = t.in_making_order(idx, left);
    lemma_lone_activated(t, target);
    let u = t.group_activated(target).0;
    assert(t.focus_sideways(left, nearest) == t.group_activated(target));
    lemma_lone_active(u);
    let e = active_entry(u);
    assert(u.floating.contains(e));
    assert(t.floating.contains(e));
    let at = choose|i: int| 0 <= i < t.floating.len() && t.floating[i] == e;
    assert(t.floating[at].key == t.floating[target].key);
    assert(at == target);
    assert(t.floating.contains(t.floating[idx]));
}

/// Over lone windows a step to the right undoes a step to the left, and the other way round:
/// both steps are taken, and the group that was active is active again.
pub proof fn law_opposite_steps_cancel(
    t: Tree,
    left: bool,
    first: Option<NodeKey>,
    second: Option<NodeKey>,
)
    requires
        t.only_lone_windows_float(),
    ensures
        ({
            let (u, there) = t.focus_sideways(left, first);
            let (v, back) = u.focus_sideways(!left, second);
            there && back && v.active_root() == t.active_root()
        }),
{
    let u = t.focus_sideways(left, first).0;
    lemma_lone_step(t, left, first);
    lemma_lone_step(u, !left, second);
    let v = u.focus_sideways(!left, second).0;
    let (a, b, c) = (active_entry(t), active_entry(u), active_entry(v));
    assert(t.floating.contains(a) && t.floating.contains(b) && u.floating.contains(c));
    assert(t.floating.contains(c));
    assert(u.floating.contains(a));
    assert(c.id == a.id);
    lemma_same_id(t, a, c);
    lemma_lone_active(t);
    lemma_lone_active(v);
}

/// A group is known by its id.
proof fn lemma_same_id(t: Tree, a: FloatingRoot, b: FloatingRoot)
    requires
        t.groups_differ(),
        t.floating.contains(a),
        t.floating.contains(b),
        a.id == b.id,
    ensures
        a == b,
{
    let i = choose|i: int| 0 <= i < t.floating.len() && t.floating[i] == a;
    let j = choose|j: int| 0 <= j < t.floating.len() && t.floating[j] == b;
    lemma_made_apart(t, i, j);
}

/// How many groups were made before the one with an id.
pub open spec fn older(all: Seq<FloatingRoot>, id: u64) -> int
    decreases all.len(),
{
    if all.len() == 0 {
        0
    } else if all.last().id < id {
        older(all.drop_last(), id) + 1
    } else {
        older(all.drop_last(), id)
    }
}

spec fn listed_id(all: Seq<FloatingRoot>, id: u64) -> bool {
    exists|i: int| 0 <= i < all.len() && (#[trigger] all[i]).id == id
}

spec fn ids_differ(all: Seq<FloatingRoot>) -> bool {
    forall|i: int, j: int|
        0 <= i < j < all.len() ==> (#[trigger] all[i]).id != (#[trigger] all[j]).id
}

proof fn lemma_listed_last(all: Seq<FloatingRoot>, id: u64)
    requires
        all.len() > 0,
        ids_differ(all),
    ensures
        ids_differ(all.drop_last()),
        listed_id(all, id) <==> listed_id(all.drop_last(), id) || all.last().id == id,
        !(listed_id(all.drop_last(), id) && all.last().id == id),
{
    let front = all.drop_last();
    let n = all.len() - 1;
    if listed_id(all, id) {
        let i = choose|i: int| 0 <= i < all.len() && (#[trigger] all[i]).id == id;
        if i < n {
            assert(front[i].id == id);
        }
    }
    if listed_id(front, id) {
        let i = choose|i: int| 0 <= i < front.len() && (#[trigger] front[i]).id == id;
        assert(all[i].id == id);
        assert(all[i].id != all[n].id);
    }
    if all.last().id == id {
        assert(all[n].id == id);
    }
}

/// One more group is older than `a` than is older than the one made last before it.
proof fn lemma_older_previous(all: Seq<FloatingRoot>, a: u64, b: u64)
    requires
        ids_differ(all),
        b < a,
        forall|i: int| 0 <= i < all.len() && (#[trigger] all[i]).id < a ==> all[i].id <= b,
    ensures
        older(all, a) == older(all, b) + if listed_id(all, b) {
            1int
        } else {
            0
        },
    decreases all.len(),
{
    if all.len() > 0 {
        lemma_listed_last(all, b);
        assert(all[all.len() - 1] == all.last());
        lemma_older_previous(all.drop_last(), a, b);
    }
}

/// Every group but itself is older than the one made last.
proof fn lemma_older_last(all: Seq<FloatingRoot>, b: u64)
    requires
        ids_differ(all),
        forall|i: int| 0 <= i < all.len() ==> (#[trigger] all[i]).id <= b,
    ensures
        older(all, b) == all.len() - if listed_id(all, b) {
            1int
        } else {
            0
        },
    decreases all.len(),
{
    if all.len() > 0 {
        lemma_listed_last(all, b);
        assert(all[all.len() - 1] == all.last());
        lemma_older_last(all.drop_last(), b);
    }
}

/// No group is older than the one made first.
proof fn lemma_older_first(all: Seq<FloatingRoot>, a: u64)
    requires
        forall|i: int| 0 <= i < all.len() ==> a <= (#[trigger] all[i]).id,
    ensures
        older(all, a) == 0,
    decreases all.len(),
{
    if all.len() > 0 {
        assert(all[all.len() - 1] == all.last());
        lemma_older_first(all.drop_last(), a);
    }
}

/// More groups are older than a group than are older than one made before it.
proof fn lemma_older_grows(all: Seq<FloatingRoot>, a: u64, b: u64)
    requires
        a < b,
        ids_differ(all),
    ensures
        0 <= older(all, a) <= older(all, b) <= all.len(),
        listed_id(all, a) ==> older(all, a) < older(all, b),
    decreases all.len(),
{
    if all.len() > 0 {
        lemma_listed_last(all, a);
        lemma_older_grows(all.drop_last(), a, b);
    }
}

/// A group has its own number among the older ones, below the count of all.
proof fn lemma_older_apart(t: Tree, a: FloatingRoot, b: FloatingRoot)
    requires
        t.groups_differ(),
        t.floating.contains(a),
        t.floating.contains(b),
    ensures
        0 <= older(t.floating, a.id) < t.floating.len(),
        older(t.floating, a.id) == older(t.floating, b.id) ==> a == b,
{
    let all = t.floating;
    let i = choose|i: int| 0 <= i < all.len() && all[i] == a;
    let j = choose|j: int| 0 <= j < all.len() && all[j] == b;
    assert(listed_id(all, all[i].id));
    assert(listed_id(all, all[j].id));
    if a.id < u64::MAX {
        lemma_older_grows(all, a.id, u64::MAX);
    } else {
        lemma_older_last(all, a.id);
    }
    if a.id < b.id {
        lemma_older_grows(all, a.id, b.id);
    } else if b.id < a.id {
        lemma_older_grows(all, b.id, a.id);
    } else {
        lemma_same_id(t, a, b);
    }
}

/// One step to the left goes to the group with the number below, or from the lowest to the
/// highest.
proof fn lemma_step_counts_down(t: Tree, a: FloatingRoot, b: FloatingRoot)
    requires
        t.groups_differ(),
        t.floating.contains(a),
        t.floating.contains(b),
        one_step_round(t.floating, a, b, true),
    ensures
        older(t.floating, b.id) == if older(t.floating, a.id) > 0 {
            older(t.floating, a.id) - 1
        } else {
            t.floating.len() - 1
        },
{
    let all = t.floating;
    let j = choose|j: int| 0 <= j < all.len() && all[j] == b;
    assert(listed_id(all, all[j].id));
    assert forall|i: int| 0 <= i < all.len() implies #[trigger] all.contains(all[i]) by {}
    if b.id < a.id && forall|e: FloatingRoot| #[trigger]
        all.contains(e) && e.id < a.id ==> e.id <= b.id {
        assert forall|i: int| 0 <= i < all.len() && (#[trigger] all[i]).id < a.id implies all[i].id
            <= b.id by {
            assert(all.contains(all[i]));
        }
        lemma_older_previous(all, a.id, b.id);
        lemma_older_apart(t, b, b);
    } else {
        assert forall|i: int| 0 <= i < all.len() implies a.id <= (#[trigger] all[i]).id && all[i].id
            <= b.id by {
            assert(all.contains(all[i]));
        }
        lemma_older_first(all, a.id);
        lemma_older_last(all, b.id);
    }
}

/// Where some steps to the left lead.
#[verifier::spinoff_prover]
proof fn lemma_left_steps(t: Tree, nearest: Seq<Option<NodeKey>>)
    requires
        t.only_lone_windows_float(),
        nearest.len() <= t.floating.len(),
    ensures
        t.left_steps(nearest).only_lone_windows_float(),
        same_groups(t.floating, t.left_steps(nearest).floating),
        t.floating.contains(active_entry(t)),
        t.floating.contains(active_entry(t.left_steps(nearest))),
        t.left_steps(nearest).active_root() == Some(active_entry(t.left_steps(nearest)).key),
        older(t.floating, active_entry(t.left_steps(nearest)).id) == {
            let start = older(t.floating, active_entry(t).id);
            if nearest.len() <= start {
                start - nearest.len()
            } else {
                start - nearest.len() + t.floating.len()
            }
        },
    decreases nearest.len(),
{
    let all = t.floating;
    lemma_lone_active(t);
    assert(all.contains(active_entry(t)));
    lemma_older_apart(t, active_entry(t), active_entry(t));
    if nearest.len() > 0 {
        let u = t.left_steps(nearest.drop_last());
        lemma_left_steps(t, nearest.drop_last());
        lemma_lone_step(u, true, nearest.last());
        let v = u.focus_sideways(true, nearest.last()).0;
        assert(t.left_steps(nearest) == v);
        let (a, b) = (active_entry(u), active_entry(v));
        assert forall|e: FloatingRoot| #[trigger] all.contains(e) <==> v.floating.contains(e) by {
            assert(u.floating.contains(e) <==> v.floating.contains(e));
        }
        assert(u.floating.contains(b));
        assert(all.contains(b));
        assert(one_step_round(all, a, b, true)) by {
            assert(one_step_round(u.floating, a, b, true));
            assert forall|e: FloatingRoot| #[trigger] all.contains(e) implies u.floating.contains(
                e,
            ) by {}
        }
        lemma_step_counts_down(t, a, b);
        lemma_lone_active(v);
    }
}

/// Over lone windows, as many steps to the left as there are groups are all taken; before each
/// of them another group is active, so that every group is active once; and after the last the
/// group that was active at the start is active again.
#[verifier::spinoff_prover]
pub proof fn law_left_steps_go_round(t: Tree, nearest: Seq<Option<NodeKey>>)
    requires
        t.only_lone_windows_float(),
        nearest.len() == t.floating.len(),
    ensures
        forall|m: int|
            0 <= m < nearest.len() ==> (#[trigger] t.left_steps(nearest.take(m))).focus_sideways(
                true,
                nearest[m],
            ).1,
        forall|m: int, n: int|
            0 <= m < n < nearest.len() ==> (#[trigger] t.left_steps(nearest.take(m))).active_root()
                != (#[trigger] t.left_steps(nearest.take(n))).active_root(),
        forall|i: int|
            0 <= i < t.floating.len() ==> exists|m: int|
                0 <= m < nearest.len() && (#[trigger] t.left_steps(nearest.take(m))).active_root()
                    == Some((#[trigger] t.floating[i]).key),
        t.left_steps(nearest).active_root() == t.active_root(),
{
    let all = t.floating;
    let start = older(all, active_entry(t).id);
    lemma_left_steps(t, nearest);
    lemma_older_apart(t, active_entry(t), active_entry(t.left_steps(nearest)));
    lemma_lone_active(t);
    assert forall|m: int| 0 <= m < nearest.len() implies (#[trigger] t.left_steps(
        nearest.take(m),
    )).focus_sideways(true, nearest[m]).1 by {
        lemma_left_steps(t, nearest.take(m));
        lemma_lone_step(t.left_steps(nearest.take(m)), true, nearest[m]);
    }
    assert forall|m: int, n: int| 0 <= m < n < nearest.len() implies (#[trigger] t.left_steps(
        nearest.take(m),
    )).active_root() != (#[trigger] t.left_steps(nearest.take(n))).active_root() by {
        let (u, v) = (t.left_steps(nearest.take(m)), t.left_steps(nearest.take(n)));
        lemma_left_steps(t, nearest.take(m));
        lemma_left_steps(t, nearest.take(n));
        if active_entry(u).key == active_entry(v).key {
            lemma_same_key(t, active_entry(u), active_entry(v));
        }
    }
    assert forall|i: int| 0 <= i < t.floating.len() implies exists|m: int|
        0 <= m < nearest.len() && (#[trigger] t.left_steps(nearest.take(m))).active_root() == Some(
            (#[trigger] t.floating[i]).key,
        ) by {
        let e = t.floating[i];
        assert(all.contains(e));
        lemma_older_apart(t, e, e);
        let r = older(all, e.id);
        let m = if r <= start {
            start - r
        } else {
            start - r + all.len()
        };
        let u = t.left_steps(nearest.take(m));
        lemma_left_steps(t, nearest.take(m));
        lemma_older_apart(t, active_entry(u), e);
        assert(u.active_root() == Some(t.floating[i].key));
    }
}

/// A group is known by its root.
proof fn lemma_same_key(t: Tree, a: FloatingRoot, b: FloatingRoot)
    requires
        t.wf(),
        t.floating.contains(a),
        t.floating.contains(b),
        a.key == b.key,
    ensures
        a == b,
{
    let i = choose|i: int| 0 <= i < t.floating.len() && t.floating[i] == a;
    let j = choose|j: int| 0 <= j < t.floating.len() && t.floating[j] == b;
    assert(t.floating[i].key == t.floating[j].key);
}

// ---------------------------------------------------------------------------------------------
// Fullscreen and back
// ---------------------------------------------------------------------------------------------

pub(crate) proof fn lemma_branch_alike(t: Tree, u: Tree, k: NodeKey)
    requires
        t.wf(),
        u.parents == t.parents,
        u.root == t.root,
        u.floating == t.floating,
    ensures
        u.branch(k) == t.branch(k),
        u.in_float(k) == t.in_float(k),
    decreases depth(t.parents, k),
{
    assert forall|x: NodeKey| #[trigger] u.is_floating(x) == t.is_floating(x) by {}
    if t.parents.contains_key(k) {
        lemma_depth(t.parents, k);
        lemma_branch_alike(t, u, t.parents[k]);
    }
}

pub(crate) proof fn lemma_first_window_alike(t: Tree, u: Tree, keys: Seq<NodeKey>, id: WindowId)
    requires
        forall|k: NodeKey| #[trigger] u.holding(k) == t.holding(k),
    ensures
        u.first_of(keys, Pick::Window(id)) == t.first_of(keys, Pick::Window(id)),
    decreases keys.len(),
{
    if keys.len() > 0 {
        assert(u.holding(keys[0]) == t.holding(keys[0]));
        lemma_first_window_alike(t, u, keys.drop_first(), id);
    }
}

/// A floating window of normal size made fullscreen and taken back out: nothing is fullscreen, the
/// window is asked for the size it had or was about to have, and the stack is the same but for the
/// box of the window's group, which is the size the group is resized from, where it is said to
/// stand. Where that is the box the group had, the stack is as it was.
#[verifier::spinoff_prover]
pub proof fn law_fullscreen_and_back(t: Tree, id: WindowId, there: Point, back: Point)
    requires
        t.wf(),
        t.fullscreen is None,
        t.floating_window(id) is Some,
        t.nodes[t.floating_window(id)->0].tile->0.window.sizing_mode is Normal,
    ensures
        ({
            let k = t.floating_window(id)->0;
            let idx = t.group_of(id)->0;
            let entry = t.floating[idx];
            let box_back = entry.geometry.retargeted(back);
            let (u, again) = t.fullscreen_switched(id, true, there);
            let (v, once_more) = u.fullscreen_switched(id, false, back);
            &&& !again && !once_more
            &&& u.floating_fullscreen() == Some(k)
            &&& v.floating_fullscreen() is None
            &&& v.fullscreen is None
            &&& v.nodes[k].tile->0.request == Some(
                TileRequest::WindowSize {
                    size: t.nodes[k].tile->0.window.coming_size(),
                    animate: true,
                },
            )
            &&& v.floating == t.floating.update(idx, FloatingRoot { geometry: box_back, ..entry })
            &&& (box_back == entry.geometry ==> v.floating == t.floating)
        }),
{
    let k = t.floating_window(id)->0;
    let idx = t.group_of(id)->0;
    lemma_first_of(t, t.seat.order, Pick::Window(id));
    let root = t.branch(k);
    assert(t.is_floating(root));
    lemma_branch(t, k);
    lemma_branch_of_float(t, root, root);
    assert(0 <= idx < t.floating.len() && t.floating[idx].key == root);
    assert(k != t.root) by {
        lemma_branch_of_float(t, root, k);
        assert(t.nodes[t.root].tile is None);
    }
    let u = t.fullscreen_switched(id, true, there).0;
    assert(t.floating_fullscreen_id() is None);
    assert(u == t.fullscreen_entered(id));
    lemma_entered(t, id, k);
    lemma_branch_alike(t, u, k);
    lemma_first_window_alike(t, u, t.seat.order, id);
    assert(u.floating_window(id) == Some(k));
    assert(u.stack_index(root) == t.stack_index(root));
    assert(u.group_of(id) == Some(idx));
    let v = u.fullscreen_switched(id, false, back).0;
    assert(v == u.fullscreen_left(id, back));
    lemma_left(u, id, k, idx, back);
    if t.floating[idx].geometry.retargeted(back) == t.floating[idx].geometry {
        assert(v.floating =~= t.floating);
    }
}

/// What making a window fullscreen leaves.
proof fn lemma_entered(t: Tree, id: WindowId, k: NodeKey)
    requires
        t.floating_window(id) == Some(k),
        t.is_view(k),
        k != t.root,
        t.fullscreen is None,
        t.nodes[k].tile->0.window.sizing_mode is Normal,
    ensures
        ({
            let u = t.fullscreen_entered(id);
            &&& u.parents == t.parents
            &&& u.root == t.root
            &&& u.floating == t.floating
            &&& u.seat == t.seat
            &&& u.fullscreen == Some(k)
            &&& u.is_view(k)
            &&& u.nodes[k].tile->0.floating_window_size == Some(
                t.nodes[k].tile->0.window.coming_size(),
            )
            &&& u.nodes[k].tile->0.window.id == t.nodes[k].tile->0.window.id
            &&& forall|x: NodeKey| #[trigger] u.holding(x) == t.holding(x)
        }),
{
    let u = t.fullscreen_entered(id);
    assert forall|x: NodeKey| #[trigger] u.holding(x) == t.holding(x) by {}
}

/// What taking a window out of fullscreen leaves.
proof fn lemma_left(u: Tree, id: WindowId, k: NodeKey, idx: int, back: Point)
    requires
        u.floating_window(id) == Some(k),
        u.group_of(id) == Some(idx),
        u.is_view(k),
        u.fullscreen == Some(k),
        0 <= idx < u.floating.len(),
        u.stack_index(u.floating[idx].key) == idx,
        u.nodes[k].tile->0.floating_window_size is Some,
    ensures
        ({
            let v = u.fullscreen_left(id, back);
            &&& v.fullscreen is None
            &&& v.nodes[k].tile->0.request == Some(
                TileRequest::WindowSize {
                    size: u.nodes[k].tile->0.floating_window_size->0,
                    animate: true,
                },
            )
            &&& v.floating == u.floating.update(
                idx,
                FloatingRoot {
                    geometry: u.floating[idx].geometry.retargeted(back),
                    ..u.floating[idx]
                },
            )
        }),
{
}

} // verus!
